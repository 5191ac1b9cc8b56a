use body_cache::body::CacheError;
use body_cache::bundle::Bundle;
use body_cache::cache::LOCAL_UNIT;
use body_cache::codec::{decode_bundle, encode_bundle};
use body_cache::paths::{
    intermediate_out_dir, local_or_remote_paths, select_candidate, with_artifact_extension,
    HostPaths, OutPath,
};

fn host(stem: &str, extern_files: &[&str]) -> HostPaths {
    HostPaths {
        default_out: OutPath {
            dir: String::from("target/debug"),
            file: String::from(stem),
        },
        extern_paths: extern_files
            .iter()
            .map(|f| OutPath {
                dir: String::from("deps"),
                file: String::from(*f),
            })
            .collect(),
    }
}

#[test]
fn prefix_normalization_adds_lib() {
    let out = intermediate_out_dir(
        &OutPath {
            dir: String::from("target/debug"),
            file: String::from("foo-abc123"),
        },
        "bwbf",
    );
    assert_eq!(out.dir, "target/debug");
    assert_eq!(out.file, "libfoo-abc123.bwbf");
}

#[test]
fn prefix_normalization_keeps_existing_lib() {
    let out = intermediate_out_dir(
        &OutPath {
            dir: String::from("target/debug"),
            file: String::from("libfoo-abc123"),
        },
        "bwbf",
    );
    assert_eq!(out.file, "libfoo-abc123.bwbf");
}

#[test]
fn extension_replaces_last_suffix() {
    assert_eq!(with_artifact_extension("dep-1.rmeta", "bwbf"), "dep-1.bwbf");
    assert_eq!(with_artifact_extension("a.b.c", "bwbf"), "a.b.bwbf");
    assert_eq!(with_artifact_extension("abc", "bwbf"), "abc.bwbf");
}

#[test]
fn local_unit_has_single_candidate() {
    let paths = local_or_remote_paths(LOCAL_UNIT, &host("foo-abc123", &["ignored.rmeta"]), "bwbf");
    assert_eq!(paths.len(), 1);
    assert_eq!(paths[0].dir, "target/debug");
    assert_eq!(paths[0].file, "libfoo-abc123.bwbf");
}

#[test]
fn external_unit_tries_host_locations_then_fallback() {
    let paths = local_or_remote_paths(
        3,
        &host("foo-abc123", &["libdep-1.rmeta", "libdep-1.rlib"]),
        "bwbf",
    );
    assert_eq!(paths.len(), 3);
    assert_eq!(paths[0].dir, "deps");
    assert_eq!(paths[0].file, "libdep-1.bwbf");
    assert_eq!(paths[1].file, "libdep-1.bwbf");
    assert_eq!(paths[2].dir, "target/debug");
    assert_eq!(paths[2].file, "libfoo-abc123.bwbf");
}

#[test]
fn fallback_resolves_when_host_locations_are_absent() {
    let paths = local_or_remote_paths(3, &host("foo-abc123", &["libdep-1.rmeta"]), "bwbf");
    let mut bundle = Bundle::new();
    bundle.insert(1, sample());
    let bytes = encode_bundle(&bundle);
    // Only the fallback — the current unit's own output path — exists and
    // holds the external unit's bundle, as in a single-output-directory
    // build.
    let exists = vec![false, true];
    assert_eq!(exists.len(), paths.len());
    let chosen = select_candidate(&exists).unwrap();
    assert_eq!(chosen, paths.len() - 1);
    assert_eq!(paths[chosen].file, "libfoo-abc123.bwbf");
    let loaded = decode_bundle(&bytes).unwrap();
    assert_eq!(loaded, bundle);
}

fn sample() -> body_cache::body::CachedBody {
    let raw = vec![(4, 5, 6)];
    body_cache::body::CachedBody::retrieve(
        &body_cache::body::Repr {
            source_scopes: vec![],
            basic_blocks: vec![],
        },
        Some(&raw),
    )
    .unwrap()
}

#[test]
fn no_existing_candidate_is_bundle_not_found() {
    let exists = vec![false, false, false];
    assert_eq!(
        select_candidate(&exists),
        Err(CacheError::BundleNotFound)
    );
}

#[test]
fn first_existing_candidate_wins() {
    let exists = vec![false, true, true];
    assert_eq!(select_candidate(&exists), Ok(1));
}
