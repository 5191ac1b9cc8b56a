//! The path-resolution policy: where a unit's artifact file may live, and
//! how the unit's canonical artifact file name is spelled.
//!
//! The host environment names output files in two ways — one reports a
//! file stem with the conventional `lib` unit-name prefix, the other the
//! same stem without it — so the canonical name normalizes the difference
//! by prepending the prefix when it is missing.

use vstd::prelude::*;
use vstd::string::*;

use crate::body::CacheError;
use crate::cache::LOCAL_UNIT;

verus! {

/// A candidate file-system location: a directory and a file name inside
/// it, both as the host environment reported them.
#[derive(Clone, PartialEq, Eq, Debug)]
pub struct OutPath {
    pub dir: String,
    pub file: String,
}

/// What the host environment reports for one resolution: the current
/// unit's default output location, and every location it knows for the
/// external unit being resolved (meaningless for the current unit itself).
pub struct HostPaths {
    pub default_out: OutPath,
    pub extern_paths: Vec<OutPath>,
}

/// The fixed extension of this system's own artifact files, distinct from
/// every output extension the host environment uses.
pub fn intermediate_artifact_ext() -> (r: &'static str)
    ensures
        r@ == "bwbf"@,
{
    "bwbf"
}

/// The index of the last `'.'` of a file name, or `-1` if it has none.
pub open spec fn rfind_dot(f: Seq<char>) -> int
    decreases f.len(),
{
    if f.len() == 0 {
        -1
    } else if f.last() == '.' {
        f.len() - 1
    } else {
        rfind_dot(f.drop_last())
    }
}

/// `rfind_dot` names a `'.'` and nothing after it is a `'.'`.
pub proof fn lemma_rfind_dot(f: Seq<char>)
    ensures
        -1 <= rfind_dot(f) < f.len(),
        rfind_dot(f) >= 0 ==> f[rfind_dot(f)] == '.',
        forall|m: int| rfind_dot(f) < m < f.len() ==> f[m] != '.',
    decreases f.len(),
{
    if f.len() == 0 {
    } else if f.last() == '.' {
    } else {
        lemma_rfind_dot(f.drop_last());
        assert forall|m: int| rfind_dot(f) < m < f.len() implies f[m] != '.' by {
            if m < f.len() - 1 {
                assert(f.drop_last()[m] == f[m]);
            }
        }
    }
}

/// A file name with its extension replaced: everything up to the last
/// `'.'` (or the whole name if it has none), then `'.'` and the new
/// extension.
pub open spec fn with_ext_spec(f: Seq<char>, e: Seq<char>) -> Seq<char> {
    (if rfind_dot(f) >= 0 {
        f.take(rfind_dot(f))
    } else {
        f
    }) + seq!['.'] + e
}

/// Whether a file name already carries the conventional unit-name prefix.
pub open spec fn has_lib_prefix(f: Seq<char>) -> bool {
    f.len() >= 3 && f[0] == 'l' && f[1] == 'i' && f[2] == 'b'
}

/// A file name with the conventional unit-name prefix, prepended when it
/// was missing.
pub open spec fn lib_prefixed(f: Seq<char>) -> Seq<char> {
    if has_lib_prefix(f) {
        f
    } else {
        seq!['l', 'i', 'b'] + f
    }
}

/// The canonical artifact file name for a default output stem: the stem
/// with the artifact extension applied, carrying the unit-name prefix.
pub open spec fn canonical_file(stem: Seq<char>, ext: Seq<char>) -> Seq<char> {
    lib_prefixed(with_ext_spec(stem, ext))
}

/// The position of the last `'.'` of a file name, if any.
fn rfind_dot_exec(file: &str) -> (r: Option<usize>)
    ensures
        r matches Some(d) ==> rfind_dot(file@) == d,
        r is None ==> rfind_dot(file@) == -1,
{
    let n = file.unicode_len();
    let mut i = n;
    while i > 0
        invariant
            i <= n == file@.len(),
            forall|k: int| i <= k < n ==> file@[k] != '.',
        decreases i,
    {
        i = i - 1;
        if file.get_char(i) == '.' {
            proof {
                lemma_rfind_dot(file@);
                if rfind_dot(file@) < i {
                    assert(file@[i as int] != '.');
                }
            }
            return Some(i);
        }
    }
    proof {
        lemma_rfind_dot(file@);
        if rfind_dot(file@) >= 0 {
            assert(file@[rfind_dot(file@)] != '.');
        }
    }
    None
}

/// A file name with its extension rewritten to `ext`.
pub fn with_artifact_extension(file: &str, ext: &str) -> (r: String)
    ensures
        r@ == with_ext_spec(file@, ext@),
{
    let stem: &str = match rfind_dot_exec(file) {
        Some(d) => {
            proof {
                lemma_rfind_dot(file@);
            }
            file.substring_char(0, d)
        },
        None => file,
    };
    let mut r = String::from_str(stem);
    r.append(".");
    r.append(ext);
    proof {
        reveal_strlit(".");
        assert("."@ =~= seq!['.']);
        assert(r@ =~= with_ext_spec(file@, ext@));
    }
    r
}

/// A file name with the conventional unit-name prefix, prepended when it
/// was missing.
fn prepend_lib_if_missing(file: String) -> (r: String)
    ensures
        r@ == lib_prefixed(file@),
{
    let n = file.as_str().unicode_len();
    let has = if n >= 3 {
        file.as_str().get_char(0) == 'l' && file.as_str().get_char(1) == 'i' && file.as_str()
            .get_char(2) == 'b'
    } else {
        false
    };
    if has {
        file
    } else {
        let mut r = String::from_str("lib");
        r.append(file.as_str());
        proof {
            reveal_strlit("lib");
            assert("lib"@ =~= seq!['l', 'i', 'b']);
            assert(r@ =~= lib_prefixed(file@));
        }
        r
    }
}

/// The canonical location of the current unit's own artifact file: the
/// host-reported default output location, with the artifact extension
/// applied and the file name normalized to carry the unit-name prefix.
pub fn intermediate_out_dir(host_default: &OutPath, ext: &str) -> (r: OutPath)
    ensures
        r.dir@ == host_default.dir@,
        r.file@ == canonical_file(host_default.file@, ext@),
{
    let with_ext = with_artifact_extension(host_default.file.as_str(), ext);
    let file = prepend_lib_if_missing(with_ext);
    OutPath { dir: host_default.dir.clone(), file }
}

/// Every location where a unit's artifact file may live, in the order they
/// are to be tried. For the current unit, only its canonical output
/// location. For an external unit, every host-reported location with its
/// extension rewritten, followed by the current unit's canonical output
/// location as a last-resort fallback (an external unit produced earlier
/// in the same build shares the current output directory).
pub fn local_or_remote_paths(krate: u32, host: &HostPaths, ext: &str) -> (r: Vec<OutPath>)
    ensures
        krate == LOCAL_UNIT ==> r@.len() == 1,
        krate != LOCAL_UNIT ==> r@.len() == host.extern_paths@.len() + 1,
        forall|k: int|
            0 <= k < r@.len() - 1 ==> (#[trigger] r@[k]).dir@ == host.extern_paths@[k].dir@
                && r@[k].file@ == with_ext_spec(host.extern_paths@[k].file@, ext@),
        r@.last().dir@ == host.default_out.dir@,
        r@.last().file@ == canonical_file(host.default_out.file@, ext@),
{
    let mut result: Vec<OutPath> = Vec::new();
    if krate != LOCAL_UNIT {
        let n = host.extern_paths.len();
        for i in 0..n
            invariant
                n == host.extern_paths@.len(),
                result@.len() == i,
                forall|k: int|
                    0 <= k < i ==> (#[trigger] result@[k]).dir@ == host.extern_paths@[k].dir@
                        && result@[k].file@ == with_ext_spec(
                        host.extern_paths@[k].file@,
                        ext@,
                    ),
        {
            let p = &host.extern_paths[i];
            let file = with_artifact_extension(p.file.as_str(), ext);
            result.push(OutPath { dir: p.dir.clone(), file });
        }
    }
    let canonical = intermediate_out_dir(&host.default_out, ext);
    result.push(canonical);
    result
}

/// The first candidate that exists on disk, given one existence flag per
/// candidate: the index resolution must load next. No existing candidate
/// at all signals an inconsistent build and is reported as such.
pub fn select_candidate(exists: &Vec<bool>) -> (r: Result<usize, CacheError>)
    ensures
        r matches Ok(i) ==> i < exists@.len() && exists@[i as int] && (forall|j: int|
            0 <= j < i ==> !exists@[j]),
        r is Err <==> (forall|j: int| 0 <= j < exists@.len() ==> !(#[trigger] exists@[j])),
        r is Err ==> r == Result::<usize, CacheError>::Err(CacheError::BundleNotFound),
{
    let n = exists.len();
    for i in 0..n
        invariant
            n == exists@.len(),
            forall|j: int| 0 <= j < i ==> !exists@[j],
    {
        if exists[i] {
            return Ok(i);
        }
    }
    Err(CacheError::BundleNotFound)
}

/// Path fallback: when none of the host-reported candidate locations for
/// an external unit exists but the last candidate — the current unit's own
/// canonical output location — does, resolution selects exactly that
/// fallback, so a bundle that lives there is found.
pub proof fn lemma_path_fallback(exists: Seq<bool>, r: Result<usize, CacheError>)
    requires
        exists.len() >= 1,
        forall|j: int| 0 <= j < exists.len() - 1 ==> !exists[j],
        exists[exists.len() - 1],
        r matches Ok(i) ==> 0 <= i < exists.len() && exists[i as int] && (forall|j: int|
            0 <= j < i ==> !exists[j]),
        r is Err <==> (forall|j: int| 0 <= j < exists.len() ==> !(#[trigger] exists[j])),
    ensures
        r == Result::<usize, CacheError>::Ok((exists.len() - 1) as usize),
{
    assert(!(forall|j: int| 0 <= j < exists.len() ==> !(#[trigger] exists[j]))) by {
        assert(exists[exists.len() - 1]);
    }
    assert(r is Ok);
    let i = r.unwrap();
    assert(exists[i as int]);
    assert(i as int == exists.len() - 1);
}

} // verus!
