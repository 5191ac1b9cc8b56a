//! The session-scoped artifact cache: a fast, memoized path for items of
//! the current unit and a per-unit path for foreign items, each foreign
//! unit's bundle loaded from disk at most once and then served from memory.
//!
//! The cache owns every artifact it hands out for the rest of the session:
//! entries are only ever added, never evicted, moved or mutated, so a
//! returned artifact stays valid as long as the cache does. The outside
//! work — running the borrow-check engine, testing paths, reading files —
//! stays with the caller: [`BodyCache::get`] decides, the caller performs,
//! and [`BodyCache::insert_local`] / [`BodyCache::insert_foreign`] record
//! the outcome.

use vstd::prelude::*;

use crate::body::{CachedBody, CachedBodyV};
use crate::bundle::{assoc_get, Bundle, BundleV};

verus! {

/// The identifier of the unit whose compilation is currently running. An
/// item of this unit is served without any disk round trip.
pub const LOCAL_UNIT: u32 = 0;

/// A session-global item identifier: the owning unit together with the
/// item's identifier inside that unit. The pair uniquely determines an
/// artifact for the whole session.
#[derive(Clone, Copy, PartialEq, Eq, Hash, Debug)]
pub struct DefId {
    pub krate: u32,
    pub index: u32,
}

impl DefId {
    /// Whether the item belongs to the unit being compiled.
    pub open spec fn is_local_spec(self) -> bool {
        self.krate == LOCAL_UNIT
    }

    /// Whether the item belongs to the unit being compiled.
    pub fn is_local(self) -> (r: bool)
        ensures
            r == self.is_local_spec(),
    {
        self.krate == LOCAL_UNIT
    }
}

/// What one cache lookup found, and what the caller must do when the cache
/// cannot answer by itself.
pub enum Lookup<'a> {
    /// The artifact, served from memory.
    Found(&'a CachedBody),
    /// A local item seen for the first time: run the borrow-check engine
    /// and record the artifact with [`BodyCache::insert_local`].
    NeedsRetrieval,
    /// A foreign unit seen for the first time: load its bundle from disk
    /// and record it with [`BodyCache::insert_foreign`].
    NeedsLoad,
    /// The foreign unit's bundle is in memory but lacks the item: the unit
    /// was depended upon before its own collection pass ran. Fatal.
    MissingItem,
}

/// The two-tier artifact cache of one analysis session.
pub struct BodyCache {
    /// Artifacts of local items, memoized one item at a time.
    pub local_cache: Bundle,
    /// Whole bundles of foreign units, loaded one unit at a time.
    pub cache: Vec<(u32, Bundle)>,
    /// Total time spent retrieving local artifacts, in microseconds, as
    /// reported by the caller at each insertion.
    pub timer: u64,
}

impl BodyCache {
    /// The artifact memoized for a local item, if any.
    pub open spec fn local_get(&self, index: u32) -> Option<CachedBodyV> {
        assoc_get(self.local_cache@, index)
    }

    /// The loaded bundles, by unit.
    pub open spec fn units(&self) -> Seq<(u32, BundleV)> {
        self.cache@.map_values(|p: (u32, Bundle)| (p.0, p.1@))
    }

    /// Whether a foreign unit's bundle has been loaded.
    pub open spec fn unit_loaded(&self, krate: u32) -> bool {
        assoc_get(self.units(), krate) is Some
    }

    /// The artifact a loaded foreign bundle holds for an item, if any.
    pub open spec fn unit_get(&self, krate: u32, index: u32) -> Option<CachedBodyV> {
        match assoc_get(self.units(), krate) {
            None => None,
            Some(bv) => assoc_get(bv, index),
        }
    }

    /// A fresh cache: nothing memoized, nothing loaded, no time spent.
    pub fn new() -> (r: BodyCache)
        ensures
            forall|index: u32| r.local_get(index) is None,
            forall|krate: u32| !r.unit_loaded(krate),
            r.timer == 0,
    {
        let r = BodyCache { local_cache: Bundle::new(), cache: Vec::new(), timer: 0 };
        proof {
            assert(r.units() =~= Seq::<(u32, BundleV)>::empty());
        }
        r
    }

    /// Total time spent inside retrieval so far, in microseconds.
    pub fn timer(&self) -> (r: u64)
        ensures
            r == self.timer,
    {
        self.timer
    }

    /// Serve an artifact from memory, or say what the caller must do to
    /// bring it into memory. Never retrieves, loads or fails by itself.
    pub fn get(&self, key: DefId) -> (r: Lookup)
        ensures
            match r {
                Lookup::Found(b) => (key.is_local_spec() && self.local_get(key.index) == Some(b@))
                    || (!key.is_local_spec() && self.unit_loaded(key.krate) && self.unit_get(
                    key.krate,
                    key.index,
                ) == Some(b@)),
                Lookup::NeedsRetrieval => key.is_local_spec() && self.local_get(key.index) is None,
                Lookup::NeedsLoad => !key.is_local_spec() && !self.unit_loaded(key.krate),
                Lookup::MissingItem => !key.is_local_spec() && self.unit_loaded(key.krate)
                    && self.unit_get(key.krate, key.index) is None,
            },
    {
        if key.is_local() {
            match self.local_cache.get(key.index) {
                Some(b) => Lookup::Found(b),
                None => Lookup::NeedsRetrieval,
            }
        } else {
            match self.find_unit(key.krate) {
                None => Lookup::NeedsLoad,
                Some(bundle) => match bundle.get(key.index) {
                    Some(b) => Lookup::Found(b),
                    None => Lookup::MissingItem,
                },
            }
        }
    }

    /// The loaded bundle of a unit, if any.
    fn find_unit(&self, krate: u32) -> (r: Option<&Bundle>)
        ensures
            match r {
                Some(b) => assoc_get(self.units(), krate) == Some(b@),
                None => !self.unit_loaded(krate),
            },
    {
        let n = self.cache.len();
        proof {
            assert(self.units().take(n as int) =~= self.units());
        }
        let mut i = n;
        while i > 0
            invariant
                i <= n == self.cache@.len(),
                assoc_get(self.units(), krate) == assoc_get(self.units().take(i as int), krate),
            decreases i,
        {
            i = i - 1;
            if self.cache[i].0 == krate {
                proof {
                    assert(self.units().take(i + 1).last() == (
                        self.cache@[i as int].0,
                        self.cache@[i as int].1@,
                    ));
                }
                return Some(&self.cache[i].1);
            }
            proof {
                assert(self.units().take(i + 1).drop_last() =~= self.units().take(i as int));
            }
        }
        proof {
            assert(self.units().take(0).len() == 0);
        }
        None
    }

    /// Record the artifact retrieved for a local item seen for the first
    /// time, and account the retrieval time.
    pub fn insert_local(&mut self, index: u32, body: CachedBody, elapsed: u64)
        requires
            old(self).local_get(index) is None,
            old(self).timer + elapsed <= u64::MAX,
        ensures
            final(self).local_get(index) == Some(body@),
            forall|probe: u32|
                probe != index ==> final(self).local_get(probe) == old(self).local_get(probe),
            final(self).units() == old(self).units(),
            final(self).timer == old(self).timer + elapsed,
    {
        self.local_cache.insert(index, body);
        proof {
            assert forall|probe: u32|
                probe != index implies #[trigger] assoc_get(self.local_cache@, probe) == assoc_get(
                old(self).local_cache@,
                probe,
            ) by {
                crate::bundle::lemma_assoc_get_push(old(self).local_cache@, index, body@, probe);
            }
            crate::bundle::lemma_assoc_get_push(old(self).local_cache@, index, body@, index);
        }
        self.timer = self.timer + elapsed;
    }

    /// Record the bundle loaded for a foreign unit seen for the first time.
    /// Every item of that unit is served from memory from here on.
    pub fn insert_foreign(&mut self, krate: u32, bundle: Bundle)
        requires
            !old(self).unit_loaded(krate),
        ensures
            final(self).units() == old(self).units().push((krate, bundle@)),
            final(self).unit_loaded(krate),
            forall|index: u32| final(self).unit_get(krate, index) == assoc_get(bundle@, index),
            forall|probe: u32, index: u32|
                probe != krate ==> final(self).unit_get(probe, index) == old(self).unit_get(
                    probe,
                    index,
                ) && (final(self).unit_loaded(probe) == old(self).unit_loaded(probe)),
            forall|index: u32| final(self).local_get(index) == old(self).local_get(index),
            final(self).timer == old(self).timer,
    {
        proof {
            let s = self.units();
            assert forall|probe: u32| #[trigger]
                assoc_get(s.push((krate, bundle@)), probe) == if probe == krate {
                    Some(bundle@)
                } else {
                    assoc_get(s, probe)
                } by {
                crate::bundle::lemma_assoc_get_push(s, krate, bundle@, probe);
            }
        }
        self.cache.push((krate, bundle));
        proof {
            assert(self.units() =~= old(self).units().push((krate, bundle@)));
        }
    }
}

/// Idempotent memoization: once a local item's artifact has been retrieved
/// and recorded, every later lookup of that item is served from memory with
/// exactly the recorded content, so retrieval runs at most once per item
/// and both calls observe the same facts and representation.
pub proof fn lemma_idempotent_memoization(c0: BodyCache, c1: BodyCache, index: u32, b: CachedBodyV)
    requires
        c0.local_get(index) is None,
        c1.local_cache@ == c0.local_cache@.push((index, b)),
    ensures
        c1.local_get(index) == Some(b),
{
    crate::bundle::lemma_assoc_get_push(c0.local_cache@, index, b, index);
}

/// Foreign bundle load-once: after the single load of a unit's bundle,
/// every item of that unit — in particular any two distinct ones — is
/// served from the in-memory bundle, so no further disk decode is needed
/// for that unit.
pub proof fn lemma_foreign_load_once(
    c0: BodyCache,
    c1: BodyCache,
    krate: u32,
    bv: BundleV,
    i1: u32,
    i2: u32,
)
    requires
        !c0.unit_loaded(krate),
        c1.units() == c0.units().push((krate, bv)),
        assoc_get(bv, i1) is Some,
        assoc_get(bv, i2) is Some,
    ensures
        c1.unit_loaded(krate),
        c1.unit_get(krate, i1) == assoc_get(bv, i1),
        c1.unit_get(krate, i2) == assoc_get(bv, i2),
{
    crate::bundle::lemma_assoc_get_push(c0.units(), krate, bv, krate);
}

} // verus!
