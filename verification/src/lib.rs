use vstd::prelude::*;
use std::sync::Arc;

pub mod assets;
pub mod dependencies;
pub mod errors;
pub mod events;
pub mod handle;
pub mod paths;
pub mod resolvers;

use crate::assets::{Asset, AssetUniverse};
use crate::dependencies::{graph_after_load, has_str, nodup_str, Dependencies, DependencyResolver};
use crate::errors::CassetError;
use crate::events::{AssetEvent, EventView};
use crate::handle::Handle;
use crate::resolvers::AssetResolver;

verus! {

/// One cache slot: the erased asset last produced for a path, and the
/// erased metadata its first load was given, carried forward across
/// reloads.
pub struct InternalAsset<U: AssetUniverse> {
    pub asset: U,
    pub metadata: Option<U::Meta>,
}

impl<U: AssetUniverse> InternalAsset<U> {
    /// A typed handle to the stored asset; fails without panicking when
    /// the slot holds a value of another type than the caller asked for.
    pub fn new_handle<A: Asset<U>>(&self) -> (r: Result<Handle<A>, CassetError>)
        ensures
            match r {
                Ok(h) => A::spec_restore(self.asset) == Some(h@),
                Err(e) => A::spec_restore(self.asset) is None && e
                    == CassetError::DowncastFailure,
            },
    {
        match A::restore(&self.asset) {
            Some(a) => Ok(Handle::new(Arc::new(a))),
            None => Err(CassetError::DowncastFailure),
        }
    }
}

/// The registry: a path-keyed cache of type-erased assets over one byte
/// source, the dependency graph discovered during loads, and the queue
/// of lifecycle events the operations emit, oldest first.
pub struct Casset<R: AssetResolver, U: AssetUniverse> {
    pub source: DependencyResolver<R>,
    pub assets: Vec<(String, InternalAsset<U>)>,
    pub dependencies: Dependencies,
    pub events: Vec<AssetEvent>,
    pub watch_base: Option<String>,
}

impl<R: AssetResolver, U: AssetUniverse> Casset<R, U> {
    pub open spec fn cached(self, p: Seq<char>) -> bool {
        exists|i: int| 0 <= i < self.assets@.len() && self.assets@[i].0@ == p
    }

    pub open spec fn cache_idx(self, p: Seq<char>) -> int {
        choose|i: int| 0 <= i < self.assets@.len() && self.assets@[i].0@ == p
    }

    pub open spec fn entry_at(self, p: Seq<char>) -> InternalAsset<U> {
        self.assets@[self.cache_idx(p)].1
    }

    /// The events emitted so far and not yet drained, oldest first.
    pub open spec fn evts(self) -> Seq<EventView> {
        self.events.deep_view()
    }

    pub open spec fn keys_distinct(self) -> bool {
        forall|i: int, j: int|
            0 <= i < j < self.assets@.len() ==> self.assets@[i].0@ != self.assets@[j].0@
    }

    pub open spec fn wf(self) -> bool {
        self.keys_distinct() && self.dependencies.wf() && self.source.recorded@.len() == 0
    }

    /// What a typed retrieval of `p` observes: the typed view of the
    /// cached erased value, none on a miss.
    pub open spec fn spec_get<A: Asset<U>>(self, p: Seq<char>) -> Option<A> {
        if self.cached(p) {
            A::spec_restore(self.entry_at(p).asset)
        } else {
            None
        }
    }

    pub proof fn lemma_cache_at_idx(self, i: int)
        requires
            self.keys_distinct(),
            0 <= i < self.assets@.len(),
        ensures
            self.cached(self.assets@[i].0@),
            self.cache_idx(self.assets@[i].0@) == i,
            self.entry_at(self.assets@[i].0@) == self.assets@[i].1,
    {
        let p = self.assets@[i].0@;
        assert(self.cached(p));
        let j = self.cache_idx(p);
        if j != i {
            if j < i {
                assert(self.assets@[j].0@ != self.assets@[i].0@);
            } else {
                assert(self.assets@[i].0@ != self.assets@[j].0@);
            }
        }
    }

    /// Two registry values with the same cache vector cache the same
    /// paths at the same slots.
    pub proof fn lemma_same_assets(c0: Self, c1: Self)
        requires
            c0.assets == c1.assets,
            c0.keys_distinct(),
        ensures
            c1.keys_distinct(),
            forall|q: Seq<char>| #[trigger] c1.cached(q) == c0.cached(q),
            forall|q: Seq<char>| c1.cached(q) ==> #[trigger] c1.cache_idx(q) == c0.cache_idx(q),
            forall|q: Seq<char>| c1.cached(q) ==> #[trigger] c1.entry_at(q) == c0.entry_at(q),
    {
        assert forall|q: Seq<char>| #[trigger] c1.cached(q) == c0.cached(q) by {
            if c1.cached(q) {
                let i = choose|i: int| 0 <= i < c1.assets@.len() && c1.assets@[i].0@ == q;
                assert(c0.assets@[i].0@ == q);
            }
            if c0.cached(q) {
                let i = choose|i: int| 0 <= i < c0.assets@.len() && c0.assets@[i].0@ == q;
                assert(c1.assets@[i].0@ == q);
            }
        }
        assert forall|q: Seq<char>| c1.cached(q) implies #[trigger] c1.cache_idx(q)
            == c0.cache_idx(q) && c1.entry_at(q) == c0.entry_at(q) by {
            let i = choose|i: int| 0 <= i < c0.assets@.len() && c0.assets@[i].0@ == q;
            c0.lemma_cache_at_idx(i);
            assert(c1.assets@[i].0@ == q);
            c1.lemma_cache_at_idx(i);
        }
    }

    fn find_cache(&self, path: &str) -> (r: Option<usize>)
        ensures
            match r {
                Some(i) => i < self.assets@.len() && self.assets@[i as int].0@ == path@,
                None => !self.cached(path@),
            },
    {
        let mut i: usize = 0;
        while i < self.assets.len()
            invariant
                i <= self.assets@.len(),
                forall|j: int| 0 <= j < i ==> self.assets@[j].0@ != path@,
            decreases self.assets@.len() - i,
        {
            if crate::paths::str_eq(self.assets[i].0.as_str(), path) {
                return Some(i);
            }
            i += 1;
        }
        None
    }

    /// A registry over the given byte source. With `hot_reload`, the
    /// source's hot-swap directory, if it names one, becomes the watched
    /// base that change notifications are resolved against. The
    /// notifications themselves are handled by `handle_change`, whose
    /// contract fixes the protocol; in particular a notification for an
    /// unregistered path is ignored without an event or an error.
    pub fn new(resolver: R, hot_reload: bool) -> (r: Result<Self, CassetError>)
        ensures
            r is Ok,
            r matches Ok(c) ==> {
                &&& c.wf()
                &&& forall|q: Seq<char>| !c.cached(q)
                &&& forall|q: Seq<char>| !c.dependencies.registered(q)
                &&& c.evts() == Seq::<EventView>::empty()
                &&& c.source.inner == resolver
                &&& !hot_reload ==> c.watch_base is None
            },
    {
        let watch_base = if hot_reload {
            resolver.hot_swap_path()
        } else {
            None
        };
        let c = Casset {
            source: DependencyResolver::new(resolver),
            assets: Vec::new(),
            dependencies: Dependencies::new(),
            events: Vec::new(),
            watch_base,
        };
        proof {
            assert(c.events.deep_view() =~= Seq::<EventView>::empty());
        }
        Ok(c)
    }

    /// Read-only access to the configured byte source.
    pub fn resolver(&self) -> (r: &R)
        ensures
            *r == self.source.inner,
    {
        &self.source.inner
    }

    /// Hands out the events emitted since the last drain, oldest first,
    /// and clears the queue; callers fan them out to their subscribers
    /// in this order.
    pub fn drain_events(&mut self) -> (r: Vec<AssetEvent>)
        ensures
            r.deep_view() == old(self).evts(),
            final(self).evts() == Seq::<EventView>::empty(),
            final(self).assets@ == old(self).assets@,
            final(self).dependencies == old(self).dependencies,
            final(self).source == old(self).source,
            final(self).watch_base == old(self).watch_base,
    {
        let mut out: Vec<AssetEvent> = Vec::new();
        core::mem::swap(&mut out, &mut self.events);
        proof {
            assert(self.events.deep_view() =~= Seq::<EventView>::empty());
        }
        out
    }

    /// Cache lookup only: never triggers a load, and returns nothing on
    /// a miss or a type mismatch.
    pub fn get<A: Asset<U>>(&self, path: &str) -> (r: Option<Handle<A>>)
        requires
            self.wf(),
        ensures
            match r {
                Some(h) => self.spec_get::<A>(path@) == Some(h@),
                None => self.spec_get::<A>(path@) is None,
            },
    {
        match self.find_cache(path) {
            Some(i) => {
                proof {
                    self.lemma_cache_at_idx(i as int);
                }
                match self.assets[i].1.new_handle::<A>() {
                    Ok(h) => Some(h),
                    Err(_) => None,
                }
            },
            None => None,
        }
    }

    /// Characterizes the cache after one slot is replaced by a slot with
    /// the same path.
    pub proof fn lemma_cache_update(c0: Self, c1: Self, k: int, e: InternalAsset<U>)
        requires
            c0.keys_distinct(),
            0 <= k < c0.assets@.len(),
            c1.assets@ == c0.assets@.update(k, (c0.assets@[k].0, e)),
        ensures
            c1.keys_distinct(),
            forall|q: Seq<char>| #[trigger] c1.cached(q) <==> c0.cached(q),
            forall|q: Seq<char>| c1.cached(q) ==> #[trigger] c1.cache_idx(q) == c0.cache_idx(q),
            forall|q: Seq<char>|
                c1.cached(q) && q != c0.assets@[k].0@ ==> #[trigger] c1.entry_at(q)
                    == c0.entry_at(q),
            c1.cached(c0.assets@[k].0@),
            c1.cache_idx(c0.assets@[k].0@) == k,
            c1.entry_at(c0.assets@[k].0@) == e,
    {
        assert(c1.assets@.len() == c0.assets@.len());
        assert forall|i: int|
            0 <= i < c1.assets@.len() implies #[trigger] c1.assets@[i].0@
            == c0.assets@[i].0@ by {}
        assert forall|q: Seq<char>| #[trigger] c1.cached(q) <==> c0.cached(q) by {
            if c1.cached(q) {
                let i = choose|i: int| 0 <= i < c1.assets@.len() && c1.assets@[i].0@ == q;
                assert(c0.assets@[i].0@ == q);
            }
            if c0.cached(q) {
                let i = choose|i: int| 0 <= i < c0.assets@.len() && c0.assets@[i].0@ == q;
                assert(c1.assets@[i].0@ == q);
            }
        }
        assert forall|q: Seq<char>| c1.cached(q) implies #[trigger] c1.cache_idx(q)
            == c0.cache_idx(q) by {
            let i = choose|i: int| 0 <= i < c0.assets@.len() && c0.assets@[i].0@ == q;
            c0.lemma_cache_at_idx(i);
            assert(c1.assets@[i].0@ == q);
            c1.lemma_cache_at_idx(i);
        }
        assert forall|q: Seq<char>|
            c1.cached(q) && q != c0.assets@[k].0@ implies #[trigger] c1.entry_at(q)
            == c0.entry_at(q) by {
            let i = c1.cache_idx(q);
            assert(c1.assets@[i].0@ == q);
            assert(i != k);
        }
        c0.lemma_cache_at_idx(k);
        c1.lemma_cache_at_idx(k);
    }

    /// Characterizes the cache after one slot is removed.
    pub proof fn lemma_cache_remove(c0: Self, c1: Self, k: int)
        requires
            c0.keys_distinct(),
            0 <= k < c0.assets@.len(),
            c1.assets@ == c0.assets@.remove(k),
        ensures
            c1.keys_distinct(),
            forall|q: Seq<char>|
                #[trigger] c1.cached(q) <==> c0.cached(q) && q != c0.assets@[k].0@,
            forall|q: Seq<char>| c1.cached(q) ==> #[trigger] c1.entry_at(q) == c0.entry_at(q),
    {
        c0.assets@.remove_ensures(k);
        let p = c0.assets@[k].0@;
        assert forall|a: int, b: int|
            0 <= a < b < c1.assets@.len() implies c1.assets@[a].0@ != c1.assets@[b].0@ by {
            let pa = if a < k {
                a
            } else {
                a + 1
            };
            let pb = if b < k {
                b
            } else {
                b + 1
            };
            assert(c1.assets@[a] == c0.assets@[pa]);
            assert(c1.assets@[b] == c0.assets@[pb]);
            assert(c0.assets@[pa].0@ != c0.assets@[pb].0@);
        }
        assert forall|q: Seq<char>| #[trigger] c1.cached(q) implies (c0.cached(q) && q != p) by {
            let i = choose|i: int| 0 <= i < c1.assets@.len() && c1.assets@[i].0@ == q;
            let pi = if i < k {
                i
            } else {
                i + 1
            };
            assert(c1.assets@[i] == c0.assets@[pi]);
            assert(c0.assets@[pi].0@ == q);
            if q == p {
                assert(pi != k);
                if pi < k {
                    assert(c0.assets@[pi].0@ != c0.assets@[k].0@);
                } else {
                    assert(c0.assets@[k].0@ != c0.assets@[pi].0@);
                }
                assert(false);
            }
        }
        assert forall|q: Seq<char>| c0.cached(q) && q != p implies #[trigger] c1.cached(q)
            && c1.entry_at(q) == c0.entry_at(q) by {
            let i = choose|i: int| 0 <= i < c0.assets@.len() && c0.assets@[i].0@ == q;
            c0.lemma_cache_at_idx(i);
            assert(i != k);
            let ni = if i < k {
                i
            } else {
                i - 1
            };
            assert(c1.assets@[ni] == c0.assets@[i]);
            assert(c1.cached(q));
            c1.lemma_cache_at_idx(ni);
        }
    }

    /// Loads an asset, or returns it from the cache if it has already
    /// been loaded. On a cache hit nothing changes, not even the byte
    /// source. On a miss the asset is produced by `A::load` over a
    /// recording source; the path, every path the load resolved, and an
    /// edge from the path to each of them enter the dependency graph,
    /// the erased asset enters the cache, and one event reporting the
    /// path as loaded is queued. A failed load changes nothing but the
    /// byte source it read from.
    pub fn load<A: Asset<U>>(&mut self, path: &str, metadata: Option<A::Metadata>) -> (r: Result<
        Handle<A>,
        CassetError,
    >)
        requires
            old(self).wf(),
        ensures
            final(self).wf(),
            old(self).cached(path@) ==> *final(self) == *old(self) && (match r {
                Ok(h) => old(self).spec_get::<A>(path@) == Some(h@),
                Err(e) => old(self).spec_get::<A>(path@) is None && e
                    == CassetError::DowncastFailure,
            }),
            !old(self).cached(path@) ==> (match r {
                Ok(h) => {
                    &&& final(self).cached(path@)
                    &&& final(self).entry_at(path@).asset == h@.spec_erase()
                    &&& final(self).entry_at(path@).asset.tag() == A::type_tag()
                    &&& final(self).spec_get::<A>(path@) == Some(h@)
                    &&& final(self).entry_at(path@).metadata == (match metadata {
                        Some(m) => Some(A::spec_erase_meta(m)),
                        None => None::<U::Meta>,
                    })
                    &&& forall|q: Seq<char>|
                        q != path@ ==> (#[trigger] final(self).cached(q) <==> old(self).cached(q))
                    &&& forall|q: Seq<char>|
                        q != path@ && old(self).cached(q) ==> #[trigger] final(self).entry_at(q)
                            == old(self).entry_at(q)
                    &&& final(self).evts() == old(self).evts().push(
                        EventView::Loaded(seq![path@]),
                    )
                    &&& exists|ds: Seq<Seq<char>>|
                        graph_after_load(
                            old(self).dependencies,
                            final(self).dependencies,
                            path@,
                            ds,
                        )
                    &&& final(self).watch_base == old(self).watch_base
                },
                Err(_) => {
                    &&& final(self).assets@ == old(self).assets@
                    &&& final(self).dependencies == old(self).dependencies
                    &&& final(self).events@ == old(self).events@
                    &&& final(self).watch_base == old(self).watch_base
                },
            }),
    {
        let found = self.find_cache(path);
        match found {
            Some(i) => {
                proof {
                    self.lemma_cache_at_idx(i as int);
                }
                self.assets[i].1.new_handle::<A>()
            },
            None => {
                let stored_meta: Option<U::Meta> = match &metadata {
                    Some(m) => Some(A::erase_meta(m)),
                    None => None,
                };
                match A::load(path, &mut self.source, metadata) {
                    Err(e) => {
                        let _ = self.source.collect();
                        Err(e)
                    },
                    Ok(a) => {
                        let ds = self.source.collect();
                        self.dependencies.record_load_edges(path, &ds);
                        proof {
                            assert(graph_after_load(
                                old(self).dependencies,
                                self.dependencies,
                                path@,
                                ds.deep_view(),
                            ));
                            assert(stored_meta == (match metadata {
                                Some(m) => Some(A::spec_erase_meta(m)),
                                None => None::<U::Meta>,
                            }));
                        }
                        let ghost ag = a;
                        let erased = A::erase(a);
                        proof {
                            A::lemma_restore_erase(ag);
                        }
                        let entry = InternalAsset { asset: erased, metadata: stored_meta };
                        let ghost ent = entry;
                        let h = match entry.new_handle::<A>() {
                            Ok(h) => h,
                            Err(_) => {
                                proof {
                                    assert(false);
                                }
                                return Err(CassetError::DowncastFailure);
                            },
                        };
                        let ghost cpre = *self;
                        self.assets.push((path.to_owned(), entry));
                        let ghost cpost = *self;
                        proof {
                            Self::lemma_same_assets(*old(self), cpre);
                            let m = cpre.assets@.len() as int;
                            assert forall|q: Seq<char>| #[trigger] self.cached(q) <==> (
                            cpre.cached(q) || q == path@) by {
                                if self.cached(q) {
                                    let i = choose|i: int|
                                        0 <= i < self.assets@.len() && self.assets@[i].0@ == q;
                                    if i < m {
                                        assert(cpre.assets@[i].0@ == q);
                                    }
                                }
                                if cpre.cached(q) {
                                    let i = choose|i: int|
                                        0 <= i < cpre.assets@.len() && cpre.assets@[i].0@ == q;
                                    assert(self.assets@[i].0@ == q);
                                }
                                if q == path@ {
                                    assert(self.assets@[m].0@ == q);
                                }
                            }
                            assert forall|a2: int, b: int|
                                0 <= a2 < b < self.assets@.len() implies self.assets@[a2].0@
                                != self.assets@[b].0@ by {
                                if b == m {
                                    if self.assets@[a2].0@ == self.assets@[b].0@ {
                                        assert(cpre.assets@[a2].0@ == path@);
                                        assert(cpre.cached(path@));
                                    }
                                } else {
                                    assert(cpre.assets@[a2].0@ != cpre.assets@[b].0@);
                                }
                            }
                            assert forall|q: Seq<char>|
                                q != path@ && self.cached(q) implies #[trigger] self.entry_at(q)
                                == cpre.entry_at(q) && self.cache_idx(q) == cpre.cache_idx(q) by {
                                let i = choose|i: int|
                                    0 <= i < cpre.assets@.len() && cpre.assets@[i].0@ == q;
                                cpre.lemma_cache_at_idx(i);
                                self.lemma_cache_at_idx(i);
                            }
                            self.lemma_cache_at_idx(m);
                            assert(self.entry_at(path@) == ent);
                            assert forall|q: Seq<char>|
                                q != path@ implies (#[trigger] cpost.cached(q) <==> old(self).cached(q)) by {}
                            assert forall|q: Seq<char>|
                                q != path@ && old(self).cached(q) implies #[trigger] cpost.entry_at(
                                q,
                            ) == old(self).entry_at(q) by {}
                        }
                        let names = vec![path.to_owned()];
                        proof {
                            assert(names.deep_view() =~= seq![path@]);
                        }
                        let ghost epre = self.events.deep_view();
                        self.events.push(AssetEvent::Loaded(names));
                        proof {
                            assert(self.events.deep_view() =~= epre.push(
                                EventView::Loaded(seq![path@]),
                            ));
                            assert(epre == old(self).events.deep_view());
                            Self::lemma_same_assets(cpost, *self);
                            assert(self.cached(path@));
                            assert(self.entry_at(path@) == ent);
                            assert forall|q: Seq<char>|
                                q != path@ implies (#[trigger] self.cached(q) <==> old(self).cached(q)) by {}
                            assert forall|q: Seq<char>|
                                q != path@ && old(self).cached(q) implies #[trigger] self.entry_at(
                                q,
                            ) == old(self).entry_at(q) by {}
                        }
                        Ok(h)
                    },
                }
            },
        }
    }

    /// Evicts the path's cache entry, queues one event reporting the
    /// path as removed, and hands the evicted asset out as a typed
    /// handle when its type matches. The dependency graph keeps the
    /// path: eviction forgets the value, not what it read. Removing an
    /// uncached path changes nothing.
    pub fn remove<A: Asset<U>>(&mut self, path: &str) -> (r: Option<Handle<A>>)
        requires
            old(self).wf(),
        ensures
            final(self).wf(),
            !final(self).cached(path@),
            forall|q: Seq<char>|
                q != path@ ==> (#[trigger] final(self).cached(q) <==> old(self).cached(q)),
            forall|q: Seq<char>|
                q != path@ && old(self).cached(q) ==> #[trigger] final(self).entry_at(q) == old(self).entry_at(q),
            final(self).dependencies == old(self).dependencies,
            final(self).source == old(self).source,
            final(self).watch_base == old(self).watch_base,
            old(self).cached(path@) ==> final(self).evts() == old(self).evts().push(
                EventView::Removed(seq![path@]),
            ),
            !old(self).cached(path@) ==> *final(self) == *old(self) && r is None,
            match r {
                Some(h) => old(self).spec_get::<A>(path@) == Some(h@),
                None => old(self).spec_get::<A>(path@) is None,
            },
    {
        let found = self.find_cache(path);
        match found {
            None => None,
            Some(i) => {
                proof {
                    self.lemma_cache_at_idx(i as int);
                }
                let pair = self.assets.remove(i);
                let h = match pair.1.new_handle::<A>() {
                    Ok(h) => Some(h),
                    Err(_) => None,
                };
                let names = vec![path.to_owned()];
                proof {
                    assert(names.deep_view() =~= seq![path@]);
                }
                let ghost epre = self.events.deep_view();
                self.events.push(AssetEvent::Removed(names));
                proof {
                    assert(self.events.deep_view() =~= epre.push(
                        EventView::Removed(seq![path@]),
                    ));
                    assert(epre == old(self).events.deep_view());
                    Self::lemma_cache_remove(*old(self), *self, i as int);
                }
                h
            },
        }
    }

    /// The reload protocol, run for one change notification carrying an
    /// absolute path. The path is relativized against the watched base
    /// and normalized; a notification for an unregistered path is
    /// ignored. Otherwise every direct dependent of the path that sits
    /// in the cache is reloaded in place through its stored reload
    /// routine and stored metadata, newly observed dependency edges are
    /// added (edges are never pruned), and one event reporting the
    /// successfully reloaded paths is queued if there were any. A failed
    /// reload stops the batch with an error: earlier reloads of the
    /// batch keep their new values, and no event is queued. Reloading
    /// never adds or evicts cache entries, never changes a stored type,
    /// and never touches stored metadata.
    #[verifier::rlimit(30)]
    pub fn handle_change(&mut self, absolute_path: &str) -> (r: Result<(), CassetError>)
        requires
            old(self).wf(),
        ensures
            final(self).wf(),
            final(self).watch_base == old(self).watch_base,
            forall|q: Seq<char>| #[trigger] final(self).cached(q) == old(self).cached(q),
            forall|q: Seq<char>|
                old(self).cached(q) ==> #[trigger] final(self).entry_at(q).asset.tag() == old(self).entry_at(q).asset.tag() && final(self).entry_at(q).metadata == old(self).entry_at(q).metadata,
            forall|q: Seq<char>|
                old(self).dependencies.registered(q) ==> #[trigger] final(self).dependencies.registered(q),
            forall|q: Seq<char>, d: Seq<char>|
                #[trigger] old(self).dependencies.reads_has(q, d) ==> final(self).dependencies.reads_has(q, d),
            r is Err ==> final(self).evts() == old(self).evts(),
            old(self).watch_base is None ==> r is Err && *final(self) == *old(self),
            old(self).watch_base matches Some(base) ==> match crate::paths::spec_normalize(
                base@,
                absolute_path@,
            ) {
                None => r is Err && *final(self) == *old(self),
                Some(rel) => {
                    &&& !old(self).dependencies.registered(rel) ==> r is Ok && *final(self)
                        == *old(self)
                    &&& !(exists|x: Seq<char>|
                        old(self).dependencies.read_by_has(rel, x) && old(self).cached(x))
                        ==> r is Ok && *final(self) == *old(self)
                    &&& forall|q: Seq<char>, d: Seq<char>|
                        #[trigger] final(self).dependencies.reads_has(q, d) ==> old(
                            self,
                        ).dependencies.reads_has(q, d) || (old(self).dependencies.read_by_has(
                            rel,
                            q,
                        ) && old(self).cached(q))
                    &&& forall|q: Seq<char>|
                        old(self).cached(q) && !old(self).dependencies.read_by_has(rel, q)
                            ==> #[trigger] final(self).entry_at(q) == old(self).entry_at(q)
                    &&& r is Ok && !(exists|x: Seq<char>|
                        old(self).dependencies.read_by_has(rel, x) && old(self).cached(x))
                        ==> final(self).evts() == old(self).evts()
                    &&& r is Ok && (exists|x: Seq<char>|
                        old(self).dependencies.read_by_has(rel, x) && old(self).cached(x))
                        ==> exists|l: Seq<Seq<char>>|
                        l.len() > 0 && (forall|x: Seq<char>|
                            #[trigger] l.contains(x) ==> old(self).dependencies.read_by_has(rel, x)
                                && old(self).cached(x)) && (forall|x: Seq<char>|
                            old(self).dependencies.read_by_has(rel, x) && old(self).cached(x)
                                ==> #[trigger] l.contains(x)) && (forall|i: int, j: int|
                            0 <= i < j < l.len() ==> l[i] != l[j]) && final(self).evts() == old(self).evts().push(EventView::Reloaded(l))
                },
            },
    {
        let base = match &self.watch_base {
            Some(b) => b.clone(),
            None => {
                return Err(
                    CassetError::ReloadError("no watched base directory".to_owned()),
                );
            },
        };
        let rel = match crate::paths::normalize_notification(base.as_str(), absolute_path) {
            Some(p) => p,
            None => {
                return Err(
                    CassetError::ReloadError(
                        "notified path lies outside the watched base".to_owned(),
                    ),
                );
            },
        };
        if !self.dependencies.is_registered(rel.as_str()) {
            return Ok(());
        }
        let dependents = match self.dependencies.get_dependents(rel.as_str()) {
            Some(v) => v,
            None => {
                proof {
                    assert(false);
                }
                return Ok(());
            },
        };
        let ghost s0 = *self;
        let ghost relv = rel@;
        let mut reloaded: Vec<String> = Vec::new();
        let n = dependents.len();
        let mut k: usize = 0;
        while k < n
            invariant
                n == dependents@.len(),
                k <= n,
                s0 == *old(self),
                s0.wf(),
                relv == rel@,
                old(self).watch_base is Some,
                crate::paths::spec_normalize(
                    old(self).watch_base.unwrap()@,
                    absolute_path@,
                ) == Some(relv),
                s0.dependencies.registered(relv),
                forall|y: Seq<char>|
                    #[trigger] has_str(dependents@, y) <==> s0.dependencies.read_by_has(relv, y),
                self.watch_base == s0.watch_base,
                self.events == s0.events,
                self.source.recorded@.len() == 0,
                self.keys_distinct(),
                self.dependencies.wf(),
                forall|q: Seq<char>| #[trigger] self.cached(q) == s0.cached(q),
                forall|q: Seq<char>|
                    s0.cached(q) ==> #[trigger] self.entry_at(q).asset.tag() == s0.entry_at(
                        q,
                    ).asset.tag() && self.entry_at(q).metadata == s0.entry_at(q).metadata,
                forall|q: Seq<char>|
                    s0.cached(q) && !s0.dependencies.read_by_has(relv, q)
                        ==> #[trigger] self.entry_at(q) == s0.entry_at(q),
                forall|q: Seq<char>|
                    s0.dependencies.registered(q) ==> #[trigger] self.dependencies.registered(q),
                forall|q: Seq<char>, d: Seq<char>|
                    #[trigger] s0.dependencies.reads_has(q, d) ==> self.dependencies.reads_has(
                        q,
                        d,
                    ),
                forall|x: Seq<char>|
                    #[trigger] has_str(reloaded@, x) ==> s0.dependencies.read_by_has(relv, x)
                        && s0.cached(x),
                forall|j2: int|
                    #![trigger dependents@[j2]]
                    0 <= j2 < k && s0.cached(dependents@[j2]@) ==> has_str(
                        reloaded@,
                        dependents@[j2]@,
                    ),
                nodup_str(dependents@),
                nodup_str(reloaded@),
                forall|x: Seq<char>|
                    #[trigger] has_str(reloaded@, x) ==> (exists|j2: int|
                        0 <= j2 < k && dependents@[j2]@ == x),
                !(exists|x: Seq<char>|
                    s0.dependencies.read_by_has(relv, x) && s0.cached(x)) ==> *self == s0,
                forall|q: Seq<char>, d: Seq<char>|
                    #[trigger] self.dependencies.reads_has(q, d) ==> s0.dependencies.reads_has(
                        q,
                        d,
                    ) || (s0.dependencies.read_by_has(relv, q) && s0.cached(q)),
            decreases n - k,
        {
            let ghost sk = *self;
            let dep = dependents[k].clone();
            proof {
                assert(dependents@[k as int]@ == dep@);
                assert(has_str(dependents@, dep@));
            }
            let found = self.find_cache(dep.as_str());
            match found {
                Some(i) => {
                    proof {
                        self.lemma_cache_at_idx(i as int);
                    }
                    let res = U::reload(
                        &self.assets[i].1.asset,
                        dep.as_str(),
                        &mut self.source,
                        &self.assets[i].1.metadata,
                    );
                    match res {
                        Err(e) => {
                            let _ = self.source.collect();
                            proof {
                                Self::lemma_same_assets(sk, *self);
                                assert(sk.cached(dep@));
                                assert(s0.cached(dep@));
                                assert(s0.dependencies.read_by_has(relv, dep@));
                            }
                            return Err(CassetError::ReloadError(e.message()));
                        },
                        Ok(new_asset) => {
                            let ds = self.source.collect();
                            let ghost spre = *self;
                            proof {
                                Self::lemma_same_assets(sk, spre);
                            }
                            let pair = self.assets.remove(i);
                            let (key, old_entry) = pair;
                            let InternalAsset { asset: _replaced, metadata: meta } = old_entry;
                            let new_entry = InternalAsset { asset: new_asset, metadata: meta };
                            let ghost ne = new_entry;
                            self.assets.insert(i, (key, new_entry));
                            proof {
                                let t = (spre.assets@[i as int].0, ne);
                                assert(self.assets@ =~= spre.assets@.update(i as int, t)) by {
                                    spre.assets@.remove(i as int).insert_ensures(i as int, t);
                                    spre.assets@.remove_ensures(i as int);
                                }
                                Self::lemma_cache_update(spre, *self, i as int, ne);
                                assert(spre.entry_at(dep@) == spre.assets@[i as int].1);
                                assert(ne.asset.tag() == spre.entry_at(dep@).asset.tag());
                                assert(ne.metadata == spre.entry_at(dep@).metadata);
                                assert(self.entry_at(dep@) == ne);
                                assert(s0.cached(dep@));
                                assert(s0.dependencies.read_by_has(relv, dep@));
                            }
                            let ghost c1 = *self;
                            self.dependencies.record_load_edges(dep.as_str(), &ds);
                            proof {
                                Self::lemma_same_assets(c1, *self);
                                assert(self.entry_at(dep@) == ne);
                                assert(graph_after_load(
                                    c1.dependencies,
                                    self.dependencies,
                                    dep@,
                                    ds.deep_view(),
                                ));
                                assert forall|q: Seq<char>|
                                    s0.dependencies.registered(q)
                                        implies #[trigger] self.dependencies.registered(q) by {
                                    assert(c1.dependencies.registered(q));
                                }
                                assert forall|q: Seq<char>, d: Seq<char>|
                                    #[trigger] s0.dependencies.reads_has(q, d)
                                        implies self.dependencies.reads_has(q, d) by {
                                    assert(c1.dependencies.reads_has(q, d));
                                }
                                assert forall|q: Seq<char>, d: Seq<char>|
                                    #[trigger] self.dependencies.reads_has(q, d) implies (
                                s0.dependencies.reads_has(q, d) || (s0.dependencies.read_by_has(
                                    relv,
                                    q,
                                ) && s0.cached(q))) by {
                                    if !c1.dependencies.reads_has(q, d) {
                                        assert(q == dep@);
                                    }
                                }
                            }
                            let ghost rpre = reloaded@;
                            reloaded.push(dep.clone());
                            proof {
                                assert forall|x: Seq<char>| #[trigger] has_str(reloaded@, x)
                                    implies s0.dependencies.read_by_has(relv, x) && s0.cached(
                                    x,
                                ) by {
                                    let ix = choose|ix: int|
                                        0 <= ix < reloaded@.len() && reloaded@[ix]@ == x;
                                    if ix < rpre.len() {
                                        assert(rpre[ix]@ == x);
                                        assert(has_str(rpre, x));
                                    } else {
                                        assert(x == dep@);
                                    }
                                }
                                assert(reloaded@[rpre.len() as int]@ == dep@);
                                assert forall|j2: int|
                                    #![trigger dependents@[j2]]
                                    0 <= j2 < k + 1 && s0.cached(dependents@[j2]@) implies has_str(
                                    reloaded@,
                                    dependents@[j2]@,
                                ) by {
                                    if j2 < k {
                                        assert(has_str(rpre, dependents@[j2]@));
                                        let ix = choose|ix: int|
                                            0 <= ix < rpre.len() && rpre[ix]@ == dependents@[j2]@;
                                        assert(reloaded@[ix]@ == dependents@[j2]@);
                                    } else {
                                        assert(has_str(reloaded@, dep@));
                                    }
                                }
                                assert(!has_str(rpre, dep@)) by {
                                    if has_str(rpre, dep@) {
                                        let j2 = choose|j2: int|
                                            0 <= j2 < k && dependents@[j2]@ == dep@;
                                        assert(dependents@[j2]@ != dependents@[k as int]@);
                                        assert(false);
                                    }
                                }
                                assert(nodup_str(reloaded@)) by {
                                    assert forall|a2: int, b2: int|
                                        0 <= a2 < b2 < reloaded@.len() implies reloaded@[a2]@
                                        != reloaded@[b2]@ by {
                                        if b2 < rpre.len() as int {
                                            assert(rpre[a2]@ != rpre[b2]@);
                                        } else {
                                            assert(reloaded@[b2]@ == dep@);
                                            assert(reloaded@[a2] == rpre[a2]);
                                            if reloaded@[a2]@ == dep@ {
                                                assert(has_str(rpre, dep@));
                                            }
                                        }
                                    }
                                }
                                assert forall|x: Seq<char>| #[trigger] has_str(reloaded@, x)
                                    implies (exists|j2: int|
                                    0 <= j2 < k + 1 && dependents@[j2]@ == x) by {
                                    let ix = choose|ix: int|
                                        0 <= ix < reloaded@.len() && reloaded@[ix]@ == x;
                                    if ix < rpre.len() {
                                        assert(rpre[ix]@ == x);
                                        assert(has_str(rpre, x));
                                    } else {
                                        assert(x == dep@);
                                        assert(dependents@[k as int]@ == x);
                                    }
                                }
                                assert forall|q: Seq<char>| #[trigger] self.cached(q)
                                    == s0.cached(q) by {
                                    assert(self.cached(q) == c1.cached(q));
                                    assert(c1.cached(q) == spre.cached(q));
                                    assert(spre.cached(q) == sk.cached(q));
                                }
                                assert forall|q: Seq<char>|
                                    s0.cached(q) implies #[trigger] self.entry_at(q).asset.tag()
                                    == s0.entry_at(q).asset.tag() && self.entry_at(q).metadata
                                    == s0.entry_at(q).metadata by {
                                    assert(sk.cached(q));
                                    assert(spre.cached(q));
                                    assert(c1.cached(q));
                                    assert(self.cached(q));
                                    assert(self.entry_at(q) == c1.entry_at(q));
                                    assert(sk.entry_at(q).asset.tag() == s0.entry_at(
                                        q,
                                    ).asset.tag());
                                    assert(sk.entry_at(q).metadata == s0.entry_at(q).metadata);
                                    if q == dep@ {
                                        assert(c1.entry_at(q) == ne);
                                        assert(spre.entry_at(q) == sk.entry_at(q));
                                        assert(ne.asset.tag() == spre.entry_at(q).asset.tag());
                                        assert(ne.metadata == spre.entry_at(q).metadata);
                                    } else {
                                        assert(c1.entry_at(q) == spre.entry_at(q));
                                        assert(spre.entry_at(q) == sk.entry_at(q));
                                    }
                                }
                                assert forall|q: Seq<char>|
                                    s0.cached(q) && !s0.dependencies.read_by_has(relv, q)
                                        implies #[trigger] self.entry_at(q) == s0.entry_at(
                                    q,
                                ) by {
                                    assert(q != dep@);
                                    assert(sk.cached(q));
                                    assert(spre.cached(q));
                                    assert(c1.cached(q));
                                    assert(self.entry_at(q) == c1.entry_at(q));
                                    assert(c1.entry_at(q) == spre.entry_at(q));
                                    assert(spre.entry_at(q) == sk.entry_at(q));
                                }
                            }
                        },
                    }
                },
                None => {
                    proof {
                        assert(!s0.cached(dep@));
                    }
                },
            }
            k += 1;
        }
        let ghost rseq = reloaded@;
        proof {
            if exists|x: Seq<char>|
                s0.dependencies.read_by_has(relv, x) && s0.cached(x) {
                let x = choose|x: Seq<char>|
                    s0.dependencies.read_by_has(relv, x) && s0.cached(x);
                assert(has_str(dependents@, x));
                let j = choose|j: int| 0 <= j < dependents@.len() && dependents@[j]@ == x;
                assert(has_str(rseq, x));
                assert(rseq.len() > 0);
            }
            if rseq.len() > 0 {
                assert(has_str(rseq, rseq[0]@));
                assert(s0.dependencies.read_by_has(relv, rseq[0]@) && s0.cached(rseq[0]@));
            }
        }
        if reloaded.len() > 0 {
            let ghost rl = reloaded.deep_view();
            proof {
                assert(rl.len() == reloaded@.len());
                assert forall|x: Seq<char>| #[trigger] rl.contains(x) implies
                    s0.dependencies.read_by_has(relv, x) && s0.cached(x) by {
                    let ix = choose|ix: int| 0 <= ix < rl.len() && rl[ix] == x;
                    assert(reloaded@[ix]@ == x);
                    assert(has_str(reloaded@, x));
                }
                assert forall|x: Seq<char>|
                    s0.dependencies.read_by_has(relv, x) && s0.cached(x)
                        implies #[trigger] rl.contains(x) by {
                    assert(has_str(dependents@, x));
                    let j2 = choose|j2: int|
                        0 <= j2 < dependents@.len() && dependents@[j2]@ == x;
                    assert(has_str(reloaded@, dependents@[j2]@));
                    let ix = choose|ix: int|
                        0 <= ix < reloaded@.len() && reloaded@[ix]@ == x;
                    assert(rl[ix] == x);
                }
                assert forall|i2: int, j2: int|
                    0 <= i2 < j2 < rl.len() implies rl[i2] != rl[j2] by {
                    assert(rl[i2] == reloaded@[i2]@);
                    assert(rl[j2] == reloaded@[j2]@);
                    assert(reloaded@[i2]@ != reloaded@[j2]@);
                }
            }
            let ghost cend = *self;
            let ghost epre = self.events.deep_view();
            self.events.push(AssetEvent::Reloaded(reloaded));
            proof {
                assert(self.events.deep_view() =~= epre.push(EventView::Reloaded(rl)));
                Self::lemma_same_assets(cend, *self);
            }
        }
        Ok(())
    }

    /// Cache coherence: a typed retrieval of a path whose slot holds the
    /// erasure of an asset observes exactly that asset. With `load`'s
    /// contract on a miss, a `get` after a successful `load` returns a
    /// handle to the loaded value.
    pub proof fn lemma_cache_coherence<A: Asset<U>>(c: Self, p: Seq<char>, a: A)
        requires
            c.cached(p),
            c.entry_at(p).asset == a.spec_erase(),
        ensures
            c.spec_get::<A>(p) == Some(a),
    {
        A::lemma_restore_erase(a);
    }

    /// A typed retrieval never miscasts: when the slot's tag is not the
    /// requested type's tag, nothing is observed.
    pub proof fn lemma_get_type_mismatch<A: Asset<U>>(c: Self, p: Seq<char>)
        requires
            c.cached(p),
            c.entry_at(p).asset.tag() != A::type_tag(),
        ensures
            c.spec_get::<A>(p) is None,
    {
        A::lemma_restore_tag(c.entry_at(p).asset);
    }

    /// After an eviction a retrieval of the path observes nothing. With
    /// `remove`'s contract, a `get` after a `remove` returns none.
    pub proof fn lemma_get_after_remove<A: Asset<U>>(c: Self, p: Seq<char>)
        requires
            !c.cached(p),
        ensures
            c.spec_get::<A>(p) is None,
    {
    }
}

} // verus!
