//! The asset cache: a deduplicating loader keyed by (type key, source path).
//!
//! A `load` first consults the cache; on a hit it returns a duplicate of the
//! cached value without consulting the loader, so for a given key the loader
//! runs at most once unless it fails. On a miss the loader receives the whole
//! world (it may itself spawn entities or touch resources); its success is
//! cached under the key, its failure is carried through uncached, so a later
//! `load` retries.

use vstd::prelude::*;
use vstd::pervasive::cloned;
use vstd::pervasive::VecAdditionalExecFns;
use crate::world::World;
use crate::world::asset_get;
use crate::world::asset_has;
use crate::world::asset_idx;
use crate::world::asset_unique;

verus! {

/// The failure of a `load`: the loader's own error, carried through to the
/// caller. The cache row stays unpopulated and a later `load` retries.
#[derive(Debug)]
pub struct AssetLoadFailure<E>(pub E);

proof fn lemma_asset_at<V>(s: Seq<(u64, String, V)>, k: u64, p: Seq<char>, i: int)
    requires
        asset_unique(s),
        0 <= i < s.len(),
        s[i].0 == k,
        s[i].1@ == p,
    ensures
        asset_has(s, k, p),
        asset_idx(s, k, p) == i,
        asset_get(s, k, p) == Some(s[i].2),
{
    assert(asset_has(s, k, p));
    let j = asset_idx(s, k, p);
    assert(0 <= j < s.len() && s[j].0 == k && s[j].1@ == p);
    if j < i {
        assert(!(s[j].0 == s[i].0 && s[j].1@ == s[i].1@));
    } else if i < j {
        assert(!(s[i].0 == s[j].0 && s[i].1@ == s[j].1@));
    }
}

proof fn lemma_asset_none<V>(s: Seq<(u64, String, V)>, k: u64, p: Seq<char>)
    requires
        forall|i: int| 0 <= i < s.len() ==> !((#[trigger] s[i]).0 == k && s[i].1@ == p),
    ensures
        asset_get(s, k, p) == None::<V>,
{
    assert(!asset_has(s, k, p));
}

proof fn lemma_asset_push<V>(s: Seq<(u64, String, V)>, k: u64, path: String, w: V)
    requires
        asset_unique(s),
        !asset_has(s, k, path@),
    ensures
        asset_unique(s.push((k, path, w))),
        asset_get(s.push((k, path, w)), k, path@) == Some(w),
        forall|k2: u64, p2: Seq<char>|
            !(k2 == k && p2 == path@) ==> asset_get(s.push((k, path, w)), k2, p2) == asset_get(
                s,
                k2,
                p2,
            ),
{
    let s2 = s.push((k, path, w));
    assert forall|i: int, j: int| 0 <= i < j < s2.len() implies !((#[trigger] s2[i]).0 == (
    #[trigger] s2[j]).0 && s2[i].1@ == s2[j].1@) by {
        if j < s.len() {
            assert(s2[i] == s[i] && s2[j] == s[j]);
        } else {
            assert(s2[j] == (k, path, w));
            assert(s2[i] == s[i]);
            if s[i].0 == k && s[i].1@ == path@ {
                assert(asset_has(s, k, path@));
            }
        }
    }
    lemma_asset_at(s2, k, path@, s.len() as int);
    assert forall|k2: u64, p2: Seq<char>| !(k2 == k && p2 == path@) implies asset_get(s2, k2, p2)
        == asset_get(s, k2, p2) by {
        if asset_has(s, k2, p2) {
            let i = asset_idx(s, k2, p2);
            assert(s2[i] == s[i]);
            lemma_asset_at(s2, k2, p2, i);
        } else {
            assert forall|i: int|
                0 <= i < s2.len() implies !((#[trigger] s2[i]).0 == k2 && s2[i].1@ == p2) by {
                if i < s.len() {
                    assert(s2[i] == s[i]);
                    assert(!(0 <= i < s.len() && s[i].0 == k2 && s[i].1@ == p2));
                } else {
                    assert(s2[i] == (k, path, w));
                }
            }
            lemma_asset_none(s2, k2, p2);
        }
    }
}

proof fn lemma_asset_update<V>(s: Seq<(u64, String, V)>, i: int, path: String, w: V)
    requires
        asset_unique(s),
        0 <= i < s.len(),
        path@ == s[i].1@,
    ensures
        asset_unique(s.update(i, (s[i].0, path, w))),
        asset_get(s.update(i, (s[i].0, path, w)), s[i].0, s[i].1@) == Some(w),
        forall|k2: u64, p2: Seq<char>|
            !(k2 == s[i].0 && p2 == s[i].1@) ==> asset_get(s.update(i, (s[i].0, path, w)), k2, p2)
                == asset_get(s, k2, p2),
{
    let k = s[i].0;
    let s2 = s.update(i, (k, path, w));
    assert(s2.len() == s.len());
    assert forall|a: int, b: int| 0 <= a < b < s2.len() implies !((#[trigger] s2[a]).0 == (
    #[trigger] s2[b]).0 && s2[a].1@ == s2[b].1@) by {
        assert(s2[a].0 == s[a].0 && s2[a].1@ == s[a].1@);
        assert(s2[b].0 == s[b].0 && s2[b].1@ == s[b].1@);
    }
    lemma_asset_at(s2, k, s[i].1@, i);
    assert forall|k2: u64, p2: Seq<char>| !(k2 == k && p2 == s[i].1@) implies asset_get(s2, k2, p2)
        == asset_get(s, k2, p2) by {
        if asset_has(s, k2, p2) {
            let j = asset_idx(s, k2, p2);
            assert(j != i);
            assert(s2[j] == s[j]);
            lemma_asset_at(s2, k2, p2, j);
        } else {
            assert forall|a: int|
                0 <= a < s2.len() implies !((#[trigger] s2[a]).0 == k2 && s2[a].1@ == p2) by {
                assert(s2[a].0 == s[a].0 && s2[a].1@ == s[a].1@);
                assert(!(0 <= a < s.len() && s[a].0 == k2 && s[a].1@ == p2));
            }
            lemma_asset_none(s2, k2, p2);
        }
    }
}

impl<V> World<V> {
    fn find_asset(&self, key: u64, path: &String) -> (r: Option<usize>)
        ensures
            match r {
                Some(i) => i < self.assets@.len() && self.assets@[i as int].0 == key
                    && self.assets@[i as int].1@ == path@,
                None => forall|i: int|
                    0 <= i < self.assets@.len() ==> !((#[trigger] self.assets@[i]).0 == key
                        && self.assets@[i].1@ == path@),
            },
    {
        let n = self.assets.len();
        let mut i: usize = 0;
        while i < n
            invariant
                i <= n,
                n == self.assets@.len(),
                forall|j: int|
                    0 <= j < i ==> !((#[trigger] self.assets@[j]).0 == key && self.assets@[j].1@
                        == path@),
            decreases n - i,
        {
            let row = &self.assets[i];
            if row.0 == key && row.1 == *path {
                return Some(i);
            }
            i += 1;
        }
        None
    }

    /// The cached asset under (`key`, `path`), if a load already succeeded.
    pub fn cached_asset(&self, key: u64, path: &String) -> (r: Option<&V>)
        requires
            self.wf(),
        ensures
            match r {
                Some(v) => self.asset_at(key, path@) == Some(*v),
                None => self.asset_at(key, path@) == None::<V>,
            },
    {
        proof {
            self.lemma_wf_asset_unique();
            self.lemma_asset_at_def();
        }
        match self.find_asset(key, path) {
            Some(i) => {
                proof {
                    lemma_asset_at(self.assets@, key, path@, i as int);
                }
                let row = &self.assets[i];
                Some(&row.2)
            }
            None => {
                proof {
                    lemma_asset_none(self.assets@, key, path@);
                }
                None
            }
        }
    }

    fn store_asset(&mut self, key: u64, path: String, value: V)
        requires
            old(self).wf(),
        ensures
            final(self).wf(),
            final(self).asset_at(key, path@) == Some(value),
            forall|k2: u64, p2: Seq<char>|
                !(k2 == key && p2 == path@) ==> final(self).asset_at(k2, p2) == old(
                    self,
                ).asset_at(k2, p2),
            forall|k: u64| final(self).components(k) == old(self).components(k),
            forall|k: u64| final(self).resource_at(k) == old(self).resource_at(k),
            forall|e2: crate::world::Entity| final(self).live(e2) == old(self).live(e2),
            forall|e2: crate::world::Entity| final(self).known(e2) == old(self).known(e2),
            forall|e2: crate::world::Entity| final(self).name_of(e2) == old(self).name_of(e2),
            final(self).pending_view() == old(self).pending_view(),
    {
        proof {
            self.lemma_wf_asset_unique();
            self.lemma_asset_at_def();
            old(self).lemma_asset_at_def();
        }
        match self.find_asset(key, &path) {
            Some(i) => {
                proof {
                    lemma_asset_at(self.assets@, key, path@, i as int);
                    lemma_asset_update(self.assets@, i as int, path, value);
                }
                self.assets.set(i, (key, path, value));
            }
            None => {
                proof {
                    lemma_asset_none(self.assets@, key, path@);
                    lemma_asset_push(self.assets@, key, path, value);
                }
                self.assets.push((key, path, value));
            }
        }
        proof {
            self.lemma_wf_assets_changed(old(self));
            self.lemma_asset_at_def();
        }
    }
}

impl<V: Clone> World<V> {
    /// Loads the asset of type `key` from `path` through `loader`,
    /// deduplicating: a cache hit returns a duplicate of the cached value and
    /// the loader does not run; a miss hands the whole world to the loader,
    /// caches its success under (`key`, `path`) and returns a duplicate of
    /// it, or carries its failure through with the cache row left
    /// unpopulated, so that a later `load` retries.
    pub fn load<E, F: Fn(World<V>, String) -> (World<V>, Result<V, E>)>(
        self,
        key: u64,
        path: String,
        loader: F,
    ) -> (r: (World<V>, Result<V, AssetLoadFailure<E>>))
        requires
            self.wf(),
            forall|w: World<V>, p: String| w.wf() ==> call_requires(loader, (w, p)),
            forall|w: World<V>, p: String, out: (World<V>, Result<V, E>)|
                w.wf() && #[trigger] call_ensures(loader, (w, p), out) ==> out.0.wf(),
        ensures
            r.0.wf(),
            // hit: the loader is not consulted and the world is untouched
            self.asset_at(key, path@) is Some ==> {
                &&& r.0 == self
                &&& r.1 is Ok
                &&& cloned::<V>(self.asset_at(key, path@).unwrap(), r.1->Ok_0)
            },
            // miss: the loader ran once on this very world
            self.asset_at(key, path@) is None ==> match r.1 {
                Ok(v) => exists|mid: World<V>, lv: V|
                    {
                        &&& #[trigger] call_ensures(loader, (self, path), (mid, Ok(lv)))
                        &&& cloned::<V>(lv, v)
                        &&& r.0.asset_at(key, path@) == Some(lv)
                        &&& forall|k2: u64, p2: Seq<char>|
                            !(k2 == key && p2 == path@) ==> r.0.asset_at(k2, p2) == mid.asset_at(
                                k2,
                                p2,
                            )
                        &&& forall|k2: u64| r.0.components(k2) == mid.components(k2)
                        &&& forall|k2: u64| r.0.resource_at(k2) == mid.resource_at(k2)
                        &&& forall|e2: crate::world::Entity| r.0.live(e2) == mid.live(e2)
                        &&& forall|e2: crate::world::Entity| r.0.name_of(e2) == mid.name_of(e2)
                        &&& r.0.pending_view() == mid.pending_view()
                    },
                Err(f) => exists|mid: World<V>, e0: E|
                    {
                        &&& #[trigger] call_ensures(loader, (self, path), (mid, Err(e0)))
                        &&& f == AssetLoadFailure(e0)
                        &&& r.0 == mid
                    },
            },
    {
        proof {
            self.lemma_wf_asset_unique();
            self.lemma_asset_at_def();
        }
        match self.find_asset(key, &path) {
            Some(i) => {
                proof {
                    lemma_asset_at(self.assets@, key, path@, i as int);
                }
                let row = &self.assets[i];
                let v = row.2.clone();
                (self, Ok(v))
            }
            None => {
                proof {
                    lemma_asset_none(self.assets@, key, path@);
                }
                let ghost w0 = self;
                let ghost path0 = path;
                let stored_path = path.clone();
                let (mut mid, lr) = loader(self, path);
                match lr {
                    Ok(v) => {
                        let ghost mid0 = mid;
                        let ghost lv = v;
                        let dup = v.clone();
                        mid.store_asset(key, stored_path, v);
                        proof {
                            assert(call_ensures(loader, (w0, path0), (mid0, Ok(lv))));
                            assert(cloned::<V>(lv, dup));
                        }
                        (mid, Ok(dup))
                    }
                    Err(e) => {
                        proof {
                            assert(call_ensures(loader, (w0, path0), (mid, Err(e))));
                        }
                        (mid, Err(AssetLoadFailure(e)))
                    }
                }
            }
        }
    }
}

} // verus!
