//! Patching a terrain: the two archives in, the merged archive out.
use vstd::prelude::*;
use crate::fileset::FileSet;
use crate::patch::{is_map_path, patch_vpk, spec_patch};
use crate::vpk::{read_archive, spec_read, ArchiveError};
use crate::writer::{create_vpk, write_result};

verus! {

/// Whether `m` is what merging `target` over `base` gives, its map file being
/// the first of `target`'s entries whose path ends in `.vmap_c`.
pub open spec fn merged_from(m: FileSet, base: FileSet, target: FileSet) -> bool {
    m.wf() && exists|k: int|
        0 <= k < target.entries@.len() && is_map_path(#[trigger] target.entries@[k].path@)
        && (forall|j: int| 0 <= j < k ==> !is_map_path(#[trigger] target.entries@[j].path@))
        && m@ == spec_patch(base@, target@, target.entries@[k].path@)
}

/// What merging `target` over `base` and writing the result may give.
pub open spec fn patch_result(base: FileSet, target: FileSet, r: Result<Vec<u8>, ArchiveError>) -> bool {
    &&& (r == Err::<Vec<u8>, ArchiveError>(ArchiveError::NoMapFile)) <==> forall|k: Seq<u8>|
        target@.contains_key(k) ==> !is_map_path(k)
    &&& ((exists|k: Seq<u8>| target@.contains_key(k) && is_map_path(k)) ==> exists|m: FileSet|
        merged_from(m, base, target) && write_result(m, r))
}

/// Merges `target` over `base` and writes the merged set as an archive.
pub fn patch_and_create(base: FileSet, target: FileSet) -> (r: Result<Vec<u8>, ArchiveError>)
    requires
        base.wf(),
        target.wf(),
    ensures
        patch_result(base, target, r),
{
    let ghost b = base;
    let ghost t = target;
    let merged = match patch_vpk(base, target) {
        Ok(m) => m,
        Err(e) => {
            return Err(e);
        },
    };
    let r = create_vpk(&merged);
    proof {
        assert(merged_from(merged, b, t));
        let k = choose|k: int|
            0 <= k < t.entries@.len() && is_map_path(#[trigger] t.entries@[k].path@)
            && (forall|j: int| 0 <= j < k ==> !is_map_path(#[trigger] t.entries@[j].path@))
            && merged@ == spec_patch(b@, t@, t.entries@[k].path@);
        crate::fileset::lemma_pairs_map_dom(t.pairs(), t.entries@[k].path@);
        assert(t.pairs()[k].0 == t.entries@[k].path@);
        assert(t@.contains_key(t.entries@[k].path@));
    }
    r
}

/// Reads the base archive `base_data` and the terrain archive `target_data`,
/// merges the terrain over the base, and writes the result as an archive.
/// Fails with the base archive's read error, else the terrain's; else it gives
/// what `patch_and_create` gives on the two file sets read.
pub fn create_terrain(base_data: Vec<u8>, target_data: Vec<u8>) -> (r: Result<Vec<u8>, ArchiveError>)
    ensures
        spec_read(base_data@) matches Err(e) ==> r == Err::<Vec<u8>, ArchiveError>(e),
        spec_read(base_data@) is Ok ==> (spec_read(target_data@) matches Err(e)
            ==> r == Err::<Vec<u8>, ArchiveError>(e)),
        spec_read(base_data@) is Ok && spec_read(target_data@) is Ok ==> exists|b: FileSet, t: FileSet|
            b.wf() && t.wf() && Ok::<Map<Seq<u8>, Seq<u8>>, ArchiveError>(b@) == spec_read(base_data@)
            && Ok::<Map<Seq<u8>, Seq<u8>>, ArchiveError>(t@) == spec_read(target_data@) && patch_result(b, t, r),
{
    let base = match read_archive(base_data) {
        Ok(fs) => fs,
        Err(e) => {
            return Err(e);
        },
    };
    let target = match read_archive(target_data) {
        Ok(fs) => fs,
        Err(e) => {
            return Err(e);
        },
    };
    let ghost b = base;
    let ghost t = target;
    let r = patch_and_create(base, target);
    proof {
        assert(patch_result(b, t, r));
    }
    r
}

} // verus!
