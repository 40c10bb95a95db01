//! Merging an override file set over a base one.
use vstd::prelude::*;
use crate::bytes::{bytes_eq, copy_bytes, ends_with, push_range};
use crate::fileset::{keys_unique, lemma_pairs_map_dom, lemma_pairs_map_index, pairs_map, FileSet};
use crate::paths::name_start;
use crate::vpk::ArchiveError;

verus! {

/// The extension of the map file that an override carries: `.vmap_c`.
pub open spec fn map_ext() -> Seq<u8> {
    seq![46u8, 118u8, 109u8, 97u8, 112u8, 95u8, 99u8]
}

/// The file name the game expects of its map: `dota.vmap_c`.
pub open spec fn map_file_name() -> Seq<u8> {
    seq![100u8, 111u8, 116u8, 97u8] + map_ext()
}

pub open spec fn is_map_path(p: Seq<u8>) -> bool {
    map_ext().len() <= p.len() && p.subrange(p.len() - map_ext().len(), p.len() as int) == map_ext()
}

/// `p` with its file name replaced by `dota.vmap_c`.
pub open spec fn renamed_map_path(p: Seq<u8>) -> Seq<u8> {
    p.subrange(0, name_start(p, p.len() as int)) + map_file_name()
}

/// The override set after its map file `v` is renamed.
pub open spec fn renamed_target(t: Map<Seq<u8>, Seq<u8>>, v: Seq<u8>) -> Map<Seq<u8>, Seq<u8>> {
    t.remove(v).insert(renamed_map_path(v), t[v])
}

/// The merged set: the renamed override, with base files filling the paths
/// it lacks.
pub open spec fn spec_patch(
    base: Map<Seq<u8>, Seq<u8>>,
    target: Map<Seq<u8>, Seq<u8>>,
    v: Seq<u8>,
) -> Map<Seq<u8>, Seq<u8>> {
    base.union_prefer_right(renamed_target(target, v))
}

fn map_ext_bytes() -> (r: Vec<u8>)
    ensures
        r@ == map_ext(),
{
    let r: Vec<u8> = vec![46u8, 118u8, 109u8, 97u8, 112u8, 95u8, 99u8];
    assert(r@ =~= map_ext());
    r
}

/// The path of the renamed map file.
fn rename_map_path(p: &Vec<u8>) -> (r: Vec<u8>)
    ensures
        r@ == renamed_map_path(p@),
{
    let mut n: usize = p.len();
    while n > 0 && p[n - 1] != 47
        invariant
            n <= p@.len(),
            name_start(p@, n as int) == name_start(p@, p@.len() as int),
        decreases n,
    {
        n = n - 1;
    }
    let mut r: Vec<u8> = Vec::new();
    push_range(&mut r, p.as_slice(), 0, n);
    let name: Vec<u8> = vec![100u8, 111u8, 116u8, 97u8];
    push_range(&mut r, name.as_slice(), 0, 4);
    let ext = map_ext_bytes();
    push_range(&mut r, ext.as_slice(), 0, 7);
    assert(r@ =~= renamed_map_path(p@));
    r
}

/// Merges `target` over `base`: the first file of `target` whose path ends in
/// `.vmap_c` is renamed to `dota.vmap_c` in its directory, and every base file
/// whose path the renamed target lacks is added. Fails when `target` has no
/// such file.
pub fn patch_vpk(base: FileSet, target: FileSet) -> (r: Result<FileSet, ArchiveError>)
    requires
        base.wf(),
        target.wf(),
    ensures
        r is Err <==> forall|k: Seq<u8>| target@.contains_key(k) ==> !is_map_path(k),
        r matches Err(e) ==> e == ArchiveError::NoMapFile,
        r matches Ok(m) ==> m.wf() && exists|k: int|
            0 <= k < target.entries@.len()
            && is_map_path(#[trigger] target.entries@[k].path@)
            && (forall|j: int| 0 <= j < k ==> !is_map_path(#[trigger] target.entries@[j].path@))
            && m@ == spec_patch(base@, target@, target.entries@[k].path@),
{
    let ghost tp = target.pairs();
    let ghost bp = base.pairs();
    let ext = map_ext_bytes();
    let n = target.entries.len();
    let mut k: usize = 0;
    while k < n && !ends_with(target.entries[k].path.as_slice(), ext.as_slice())
        invariant
            k <= n == target.entries@.len(),
            ext@ == map_ext(),
            forall|j: int| 0 <= j < k ==> !is_map_path(#[trigger] target.entries@[j].path@),
        decreases n - k,
    {
        k = k + 1;
    }
    if k == n {
        proof {
            assert forall|p: Seq<u8>| target@.contains_key(p) implies !is_map_path(p) by {
                lemma_pairs_map_dom(tp, p);
                let i = choose|i: int| 0 <= i < tp.len() && #[trigger] tp[i].0 == p;
                assert(tp[i].0 == target.entries@[i].path@);
            }
        }
        return Err(ArchiveError::NoMapFile);
    }
    let v = copy_bytes(&target.entries[k].path);
    let vdata = copy_bytes(&target.entries[k].data);
    let newp = rename_map_path(&v);
    proof {
        lemma_pairs_map_index(tp, k as int);
        assert(tp[k as int] == (v@, vdata@));
    }
    let ghost tren = renamed_target(target@, v@);
    let mut out = FileSet::new();
    let mut j: usize = 0;
    assert(tp.subrange(0, 0) =~= Seq::<(Seq<u8>, Seq<u8>)>::empty());
    assert(Map::<Seq<u8>, Seq<u8>>::empty().remove(v@).remove(newp@) =~= Map::<Seq<u8>, Seq<u8>>::empty());
    while j < n
        invariant
            j <= n == target.entries@.len(),
            tp == target.pairs(),
            out.wf(),
            out@ == pairs_map(tp.subrange(0, j as int)).remove(v@).remove(newp@),
        decreases n - j,
    {
        let ghost pre = tp.subrange(0, j as int);
        let ghost key = target.entries@[j as int].path@;
        let ghost val = target.entries@[j as int].data@;
        assert(tp[j as int] == (key, val));
        assert(tp.subrange(0, j + 1).drop_last() =~= pre);
        assert(pairs_map(tp.subrange(0, j + 1)) == pairs_map(pre).insert(key, val));
        let p = &target.entries[j].path;
        if !bytes_eq(p.as_slice(), v.as_slice()) && !bytes_eq(p.as_slice(), newp.as_slice()) {
            out.insert(copy_bytes(p), copy_bytes(&target.entries[j].data));
            assert(out@ =~= pairs_map(tp.subrange(0, j + 1)).remove(v@).remove(newp@));
        } else {
            assert(out@ =~= pairs_map(tp.subrange(0, j + 1)).remove(v@).remove(newp@));
        }
        j = j + 1;
    }
    assert(tp.subrange(0, n as int) =~= tp);
    out.insert(newp, vdata);
    assert(out@ =~= tren);
    let m = base.entries.len();
    let mut i: usize = 0;
    assert(bp.subrange(0, 0) =~= Seq::<(Seq<u8>, Seq<u8>)>::empty());
    assert(Map::<Seq<u8>, Seq<u8>>::empty().union_prefer_right(tren) =~= tren);
    while i < m
        invariant
            i <= m == base.entries@.len(),
            bp == base.pairs(),
            keys_unique(bp),
            out.wf(),
            out@ == pairs_map(bp.subrange(0, i as int)).union_prefer_right(tren),
        decreases m - i,
    {
        let ghost pre = bp.subrange(0, i as int);
        let ghost key = base.entries@[i as int].path@;
        let ghost val = base.entries@[i as int].data@;
        assert(bp[i as int] == (key, val));
        assert(bp.subrange(0, i + 1).drop_last() =~= pre);
        assert(pairs_map(bp.subrange(0, i + 1)) == pairs_map(pre).insert(key, val));
        let p = &base.entries[i].path;
        if !out.contains_key(p.as_slice()) {
            out.insert(copy_bytes(p), copy_bytes(&base.entries[i].data));
            assert(out@ =~= pairs_map(bp.subrange(0, i + 1)).union_prefer_right(tren));
        } else {
            proof {
                lemma_pairs_map_dom(pre, key);
                if pairs_map(pre).contains_key(key) {
                    let q = choose|q: int| 0 <= q < pre.len() && #[trigger] pre[q].0 == key;
                    assert(bp[q].0 == bp[i as int].0);
                }
            }
            assert(out@ =~= pairs_map(bp.subrange(0, i + 1)).union_prefer_right(tren));
        }
        i = i + 1;
    }
    assert(bp.subrange(0, m as int) =~= bp);
    assert(is_map_path(target.entries@[k as int].path@));
    Ok(out)
}

/// The override's map file, renamed, takes the place of any base file of
/// that name: the merged set holds the override's bytes there.
pub proof fn law_override_wins(
    base: Map<Seq<u8>, Seq<u8>>,
    target: Map<Seq<u8>, Seq<u8>>,
    v: Seq<u8>,
)
    requires
        target.contains_key(v),
        is_map_path(v),
    ensures
        spec_patch(base, target, v).contains_key(renamed_map_path(v)),
        spec_patch(base, target, v)[renamed_map_path(v)] == target[v],
{
}

/// Merging loses no path: the merged paths are those of the base and of the
/// renamed override, so there are as many as in the union of the two.
pub proof fn law_merge_union(
    base: Map<Seq<u8>, Seq<u8>>,
    target: Map<Seq<u8>, Seq<u8>>,
    v: Seq<u8>,
)
    requires
        target.contains_key(v),
        base.dom().finite(),
        target.dom().finite(),
    ensures
        spec_patch(base, target, v).dom() == base.dom() + renamed_target(target, v).dom(),
        spec_patch(base, target, v).len() == (base.dom() + renamed_target(target, v).dom()).len(),
{
    assert(spec_patch(base, target, v).dom() =~= base.dom() + renamed_target(target, v).dom());
}

} // verus!
