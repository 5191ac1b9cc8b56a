//! A compilation unit's bundle: the mapping from in-unit item identifier to
//! per-function artifact, and the collection pass that assembles it.

use vstd::prelude::*;

use crate::body::{CacheError, CachedBody, CachedBodyV, RawFact, Repr};
use crate::codec::encode_bundle;

verus! {

/// The value associated with `key` in an association sequence, if any.
/// Later entries win, which matches populating by `push`.
pub open spec fn assoc_get<T>(s: Seq<(u32, T)>, key: u32) -> Option<T>
    decreases s.len(),
{
    if s.len() == 0 {
        None
    } else if s.last().0 == key {
        Some(s.last().1)
    } else {
        assoc_get(s.drop_last(), key)
    }
}

/// All keys of an association sequence are distinct.
pub open spec fn distinct_keys<T>(s: Seq<(u32, T)>) -> bool {
    forall|i: int, j: int| 0 <= i < j < s.len() ==> (#[trigger] s[i]).0 != (#[trigger] s[j]).0
}

/// Pushing a fresh entry leaves every other key's association unchanged and
/// binds the new key to the new value.
pub proof fn lemma_assoc_get_push<T>(s: Seq<(u32, T)>, key: u32, value: T, probe: u32)
    ensures
        assoc_get(s.push((key, value)), probe) == if probe == key {
            Some(value)
        } else {
            assoc_get(s, probe)
        },
{
    assert(s.push((key, value)).drop_last() =~= s);
}

/// If `key` holds a value, it is the value of some entry of the sequence.
pub proof fn lemma_assoc_get_is_entry<T>(s: Seq<(u32, T)>, key: u32)
    requires
        assoc_get(s, key) is Some,
    ensures
        exists|i: int|
            0 <= i < s.len() && #[trigger] s[i] == (key, assoc_get(s, key).unwrap()),
    decreases s.len(),
{
    if s.len() > 0 {
        if s.last().0 == key {
            assert(s[s.len() - 1] == (key, assoc_get(s, key).unwrap()));
        } else {
            lemma_assoc_get_is_entry(s.drop_last(), key);
            let i = choose|i: int|
                0 <= i < s.drop_last().len() && #[trigger] s.drop_last()[i] == (
                    key,
                    assoc_get(s.drop_last(), key).unwrap(),
                );
            assert(s[i] == (key, assoc_get(s, key).unwrap()));
        }
    }
}

/// Mathematical model of a [`Bundle`]: the item identifiers with their
/// artifacts, in insertion order.
pub type BundleV = Seq<(u32, CachedBodyV)>;

/// Everything one compilation unit persists: an artifact for every
/// function-like item of the unit, keyed by in-unit item identifier.
/// Identifiers are unique; their order carries no meaning.
#[derive(Clone, PartialEq, Eq, Debug)]
pub struct Bundle {
    pub items: Vec<(u32, CachedBody)>,
}

impl View for Bundle {
    type V = BundleV;

    open spec fn view(&self) -> BundleV {
        self.items@.map_values(|p: (u32, CachedBody)| (p.0, p.1@))
    }
}

impl Bundle {
    /// Every item identifier occurs at most once.
    pub open spec fn wf(&self) -> bool {
        distinct_keys(self@)
    }

    /// The artifact stored for `key`, if any.
    pub open spec fn spec_get(&self, key: u32) -> Option<CachedBodyV> {
        assoc_get(self@, key)
    }

    /// An empty bundle.
    pub fn new() -> (r: Bundle)
        ensures
            r@ =~= Seq::<(u32, CachedBodyV)>::empty(),
            r.wf(),
    {
        Bundle { items: Vec::new() }
    }

    /// How many items the bundle holds.
    pub fn len(&self) -> (r: usize)
        ensures
            r == self@.len(),
    {
        self.items.len()
    }

    /// Add the artifact for a not-yet-present item identifier.
    pub fn insert(&mut self, key: u32, body: CachedBody)
        requires
            old(self).spec_get(key) is None,
        ensures
            final(self)@ == old(self)@.push((key, body@)),
            forall|probe: u32|
                final(self).spec_get(probe) == if probe == key {
                    Some(body@)
                } else {
                    old(self).spec_get(probe)
                },
            old(self).wf() ==> final(self).wf(),
    {
        proof {
            let s = self@;
            assert forall|probe: u32| #[trigger]
                assoc_get(s.push((key, body@)), probe) == if probe == key {
                    Some(body@)
                } else {
                    assoc_get(s, probe)
                } by {
                lemma_assoc_get_push(s, key, body@, probe);
            }
            if self.wf() {
                assert forall|i: int, j: int|
                    0 <= i < j < s.push((key, body@)).len() implies (#[trigger] s.push(
                    (key, body@),
                )[i]).0 != (#[trigger] s.push((key, body@))[j]).0 by {
                    if j == s.len() {
                        if s[i].0 == key {
                            lemma_assoc_get_nonempty(s, i);
                        }
                    }
                }
            }
        }
        self.items.push((key, body));
        proof {
            assert(self@ =~= old(self)@.push((key, body@)));
        }
    }

    /// Look an item identifier up in the bundle.
    pub fn get(&self, key: u32) -> (r: Option<&CachedBody>)
        ensures
            match r {
                Some(b) => self.spec_get(key) == Some(b@),
                None => self.spec_get(key) is None,
            },
    {
        let n = self.items.len();
        proof {
            assert(self@.take(n as int) =~= self@);
        }
        let mut i = n;
        while i > 0
            invariant
                i <= n == self.items@.len(),
                assoc_get(self@, key) == assoc_get(self@.take(i as int), key),
            decreases i,
        {
            i = i - 1;
            if self.items[i].0 == key {
                proof {
                    assert(self@.take(i + 1).last() == (self@[i as int].0, self@[i as int].1));
                }
                return Some(&self.items[i].1);
            }
            proof {
                assert(self@.take(i + 1).drop_last() =~= self@.take(i as int));
            }
        }
        proof {
            assert(self@.take(0).len() == 0);
        }
        None
    }

    /// Look an item up that the bundle is owed: a loaded unit lacking a
    /// requested item means the unit was depended upon before its own
    /// collection pass ran, which the caller treats as fatal.
    pub fn get_required(&self, key: u32) -> (r: Result<&CachedBody, CacheError>)
        ensures
            r matches Ok(b) ==> self.spec_get(key) == Some(b@),
            r is Err <==> self.spec_get(key) is None,
            r is Err ==> r == Result::<&CachedBody, CacheError>::Err(CacheError::MissingItem),
    {
        match self.get(key) {
            Some(b) => Ok(b),
            None => Err(CacheError::MissingItem),
        }
    }
}

/// If an index of the sequence carries `key`, then `key` is associated.
proof fn lemma_assoc_get_nonempty<T>(s: Seq<(u32, T)>, i: int)
    requires
        0 <= i < s.len(),
    ensures
        assoc_get(s, s[i].0) is Some,
    decreases s.len(),
{
    if i == s.len() - 1 || s.last().0 == s[i].0 {
    } else {
        lemma_assoc_get_nonempty(s.drop_last(), i);
    }
}

/// What the collection pass found for one function-like item of the current
/// unit: its in-unit identifier, its program representation, and the raw
/// facts the borrow-check engine produced for it (if it produced any).
pub struct Target {
    pub index: u32,
    pub body: Repr,
    pub raw_facts: Option<Vec<RawFact>>,
}

/// The artifact each target turns into, as [`CachedBody::retrieve`] builds
/// it: a sanitized representation plus the projected region pairs.
pub open spec fn retrieved_view(t: Target) -> CachedBodyV {
    CachedBodyV {
        body: crate::body::sanitize_repr(t.body@),
        subset_base: crate::body::project_facts(t.raw_facts.unwrap()@),
    }
}

/// The collection pass over one unit, after the traversal: every
/// function-like item of the unit arrives as a [`Target`], each is turned
/// into its artifact, the artifacts are assembled into the unit's bundle,
/// and the bundle is serialized in one piece. The caller writes the bytes
/// to the unit's canonical artifact path and accounts the elapsed time.
///
/// Fails exactly when the engine produced no facts for some target, which
/// signals a misconfigured environment.
pub fn dump_mir_and_borrowck_facts(targets: &Vec<Target>) -> (r: Result<
    (Bundle, Vec<u8>),
    CacheError,
>)
    requires
        distinct_keys(targets@.map_values(|t: Target| (t.index, retrieved_view(t)))),
    ensures
        r is Ok <==> (forall|i: int| 0 <= i < targets@.len() ==> (#[trigger] targets@[i]).raw_facts is Some),
        r is Err ==> r == Result::<(Bundle, Vec<u8>), CacheError>::Err(CacheError::MissingFacts),
        r matches Ok((bundle, bytes)) ==> {
            &&& bundle@ == targets@.map_values(|t: Target| (t.index, retrieved_view(t)))
            &&& bundle.wf()
            &&& bytes@ == crate::codec::spec_encode_bundle(bundle@)
        },
{
    let ghost model = targets@.map_values(|t: Target| (t.index, retrieved_view(t)));
    let mut bundle = Bundle::new();
    let n = targets.len();
    for i in 0..n
        invariant
            n == targets@.len(),
            distinct_keys(model),
            model == targets@.map_values(|t: Target| (t.index, retrieved_view(t))),
            bundle@ =~= model.take(i as int),
            forall|k: int| 0 <= k < i ==> (#[trigger] targets@[k]).raw_facts is Some,
    {
        let t = &targets[i];
        let raw_facts = match &t.raw_facts {
            Some(raw) => Some(raw),
            None => {
                return Err(CacheError::MissingFacts);
            },
        };
        let retrieved = match CachedBody::retrieve(&t.body, raw_facts) {
            Ok(b) => b,
            Err(e) => {
                return Err(e);
            },
        };
        proof {
            assert(retrieved@ =~~= retrieved_view(targets@[i as int]));
            assert(bundle.spec_get(t.index) is None) by {
                if assoc_get(bundle@, t.index) is Some {
                    lemma_assoc_get_is_entry(bundle@, t.index);
                    let k = choose|k: int|
                        0 <= k < bundle@.len() && #[trigger] bundle@[k] == (
                            t.index,
                            assoc_get(bundle@, t.index).unwrap(),
                        );
                    assert(model[k].0 == model[i as int].0);
                }
            }
        }
        bundle.insert(t.index, retrieved);
        proof {
            assert(bundle@ =~= model.take(i + 1));
        }
    }
    proof {
        assert(bundle@ =~= model);
    }
    let bytes = encode_bundle(&bundle);
    Ok((bundle, bytes))
}

} // verus!
