use body_cache::body::{
    clean_undecodable_data_from_body, BasicBlock, CacheError, CachedBody, FlowistryFacts, Repr,
    ScopeData, Statement,
};
use body_cache::bundle::{dump_mir_and_borrowck_facts, Bundle, Target};
use body_cache::cache::{BodyCache, DefId, Lookup, LOCAL_UNIT};
use body_cache::codec::{decode_bundle, encode_bundle};

fn sample_repr() -> Repr {
    Repr {
        source_scopes: vec![ScopeData::Local(7), ScopeData::Clear],
        basic_blocks: vec![
            BasicBlock {
                statements: vec![Statement::Assign(1, 2), Statement::FakeRead(3)],
            },
            BasicBlock {
                statements: vec![Statement::Nop],
            },
        ],
    }
}

fn sample_body(seed: u32) -> CachedBody {
    let raw = vec![(seed, seed + 1, 99), (seed + 2, seed + 3, 98)];
    CachedBody::retrieve(&sample_repr(), Some(&raw)).unwrap()
}

#[test]
fn sanitizer_clears_scopes_and_fake_reads() {
    let mut repr = sample_repr();
    clean_undecodable_data_from_body(&mut repr);
    assert_eq!(
        repr.source_scopes,
        vec![ScopeData::Clear, ScopeData::Clear]
    );
    assert_eq!(
        repr.basic_blocks[0].statements,
        vec![Statement::Assign(1, 2), Statement::Nop]
    );
    assert_eq!(repr.basic_blocks[1].statements, vec![Statement::Nop]);
}

#[test]
fn sanitizer_idempotent() {
    let mut once = sample_repr();
    clean_undecodable_data_from_body(&mut once);
    let mut twice = once.clone();
    clean_undecodable_data_from_body(&mut twice);
    assert_eq!(once, twice);
}

#[test]
fn fact_projection_keeps_order_and_multiplicity() {
    let raw = vec![(1, 2, 9), (3, 4, 8), (1, 2, 7)];
    let body = CachedBody::retrieve(&sample_repr(), Some(&raw)).unwrap();
    assert_eq!(
        body.input_facts_subset_base(),
        &vec![(1, 2), (3, 4), (1, 2)]
    );
}

#[test]
fn retrieve_without_facts_is_missing_facts() {
    let r = CachedBody::retrieve(&sample_repr(), None);
    assert_eq!(r, Err(CacheError::MissingFacts));
}

#[test]
fn retrieve_with_empty_facts_is_ok() {
    let raw: Vec<(u32, u32, u32)> = vec![];
    let body = CachedBody::retrieve(&sample_repr(), Some(&raw)).unwrap();
    assert_eq!(body.input_facts_subset_base(), &Vec::<(u32, u32)>::new());
}

#[test]
fn round_trip_empty_bundle() {
    let bundle = Bundle::new();
    let bytes = encode_bundle(&bundle);
    let decoded = decode_bundle(&bytes).unwrap();
    assert_eq!(decoded, bundle);
}

#[test]
fn round_trip_single_item_empty_facts() {
    let raw: Vec<(u32, u32, u32)> = vec![];
    let body = CachedBody::retrieve(&sample_repr(), Some(&raw)).unwrap();
    let mut bundle = Bundle::new();
    bundle.insert(5, body);
    let bytes = encode_bundle(&bundle);
    let decoded = decode_bundle(&bytes).unwrap();
    assert_eq!(decoded, bundle);
}

#[test]
fn round_trip_many_items() {
    let mut bundle = Bundle::new();
    bundle.insert(0, sample_body(10));
    bundle.insert(7, sample_body(20));
    bundle.insert(3, sample_body(30));
    let bytes = encode_bundle(&bundle);
    let decoded = decode_bundle(&bytes).unwrap();
    assert_eq!(decoded, bundle);
    for key in [0, 7, 3] {
        assert_eq!(decoded.get(key), bundle.get(key));
        assert!(decoded.get(key).is_some());
    }
}

#[test]
fn decode_rejects_garbage() {
    let bytes = vec![1, 2, 3];
    assert_eq!(decode_bundle(&bytes), Err(CacheError::DecodeFailed));
}

#[test]
fn decode_rejects_trailing_bytes() {
    let bundle = Bundle::new();
    let mut bytes = encode_bundle(&bundle);
    bytes.push(0);
    assert_eq!(decode_bundle(&bytes), Err(CacheError::DecodeFailed));
}

#[test]
fn decode_rejects_truncated_bytes() {
    let mut bundle = Bundle::new();
    bundle.insert(1, sample_body(4));
    let mut bytes = encode_bundle(&bundle);
    bytes.pop();
    assert_eq!(decode_bundle(&bytes), Err(CacheError::DecodeFailed));
}

#[test]
fn idempotent_memoization_retrieves_once() {
    let mut cache = BodyCache::new();
    let key = DefId {
        krate: LOCAL_UNIT,
        index: 4,
    };
    let raw = vec![(8, 9, 77)];
    let mut retrievals = 0;
    let mut results: Vec<CachedBody> = Vec::new();
    for _ in 0..2 {
        let found = match cache.get(key) {
            Lookup::Found(b) => Some(b.clone()),
            Lookup::NeedsRetrieval => None,
            _ => panic!("local lookup took the foreign path"),
        };
        match found {
            Some(b) => results.push(b),
            None => {
                retrievals += 1;
                let body = CachedBody::retrieve(&sample_repr(), Some(&raw)).unwrap();
                results.push(body.clone());
                cache.insert_local(key.index, body, 5);
            }
        }
    }
    assert_eq!(retrievals, 1);
    assert_eq!(results[0], results[1]);
    assert_eq!(cache.timer(), 5);
}

#[test]
fn timer_accumulates_per_retrieval() {
    let mut cache = BodyCache::new();
    cache.insert_local(1, sample_body(1), 3);
    cache.insert_local(2, sample_body(2), 4);
    assert_eq!(cache.timer(), 7);
}

#[test]
fn foreign_bundle_loads_once() {
    let mut bundle = Bundle::new();
    bundle.insert(10, sample_body(1));
    bundle.insert(11, sample_body(2));
    let bytes = encode_bundle(&bundle);

    let mut cache = BodyCache::new();
    let unit = 9;
    let mut decodes = 0;
    for index in [10, 11, 10] {
        let key = DefId { krate: unit, index };
        loop {
            match cache.get(key) {
                Lookup::Found(b) => {
                    assert_eq!(Some(b), bundle.get(index));
                    break;
                }
                Lookup::NeedsLoad => {
                    decodes += 1;
                    let loaded = decode_bundle(&bytes).unwrap();
                    cache.insert_foreign(unit, loaded);
                }
                Lookup::NeedsRetrieval => panic!("foreign lookup took the local path"),
                Lookup::MissingItem => panic!("item missing from a loaded bundle"),
            }
        }
    }
    assert_eq!(decodes, 1);
}

#[test]
fn missing_item_in_loaded_bundle_is_fatal() {
    let mut bundle = Bundle::new();
    bundle.insert(10, sample_body(1));
    let mut cache = BodyCache::new();
    cache.insert_foreign(2, bundle.clone());
    let key = DefId { krate: 2, index: 999 };
    assert!(matches!(cache.get(key), Lookup::MissingItem));
    assert_eq!(
        bundle.get_required(999).err(),
        Some(CacheError::MissingItem)
    );
    assert!(bundle.get_required(10).is_ok());
}

#[test]
fn collector_assembles_and_serializes_bundle() {
    let targets = vec![
        Target {
            index: 0,
            body: sample_repr(),
            raw_facts: Some(vec![(1, 2, 3)]),
        },
        Target {
            index: 4,
            body: sample_repr(),
            raw_facts: Some(vec![]),
        },
    ];
    let (bundle, bytes) = dump_mir_and_borrowck_facts(&targets).unwrap();
    assert_eq!(bundle.len(), 2);
    assert_eq!(
        bundle.get(0).unwrap().input_facts_subset_base(),
        &vec![(1, 2)]
    );
    assert_eq!(
        bundle.get(4).unwrap().input_facts_subset_base(),
        &Vec::<(u32, u32)>::new()
    );
    assert_eq!(bytes, encode_bundle(&bundle));
    assert_eq!(decode_bundle(&bytes).unwrap(), bundle);
}

#[test]
fn collector_reports_missing_facts() {
    let targets = vec![
        Target {
            index: 0,
            body: sample_repr(),
            raw_facts: Some(vec![(1, 2, 3)]),
        },
        Target {
            index: 1,
            body: sample_repr(),
            raw_facts: None,
        },
    ];
    assert_eq!(
        dump_mir_and_borrowck_facts(&targets).err(),
        Some(CacheError::MissingFacts)
    );
}

#[test]
fn collector_sanitizes_what_it_stores() {
    let targets = vec![Target {
        index: 2,
        body: sample_repr(),
        raw_facts: Some(vec![]),
    }];
    let (bundle, _) = dump_mir_and_borrowck_facts(&targets).unwrap();
    let stored = bundle.get(2).unwrap();
    assert_eq!(
        stored.body().source_scopes,
        vec![ScopeData::Clear, ScopeData::Clear]
    );
    assert_eq!(
        stored.body().basic_blocks[0].statements,
        vec![Statement::Assign(1, 2), Statement::Nop]
    );
}

#[test]
fn flowistry_facts_hold_plain_pairs() {
    let facts = FlowistryFacts {
        subset_base: vec![(1, 2)],
    };
    assert_eq!(facts.subset_base, vec![(1, 2)]);
}
