//! Writing an archive: grouping files into a directory tree, then encoding
//! the tree, the payloads, the header and the digests.
use vstd::prelude::*;
use crate::bytes::{
    bytes_eq, le_u32, lemma_u32_round_trip, push_range, push_u16, push_u32, range_to_vec, u16_bytes,
    u32_bytes,
};
use crate::checksum::{crc32_of, crc32_cksum, md5_digest, md5_of};
use crate::fileset::FileSet;
use crate::paths::{
    last_dot, lemma_name_start, name_start, path_dir, path_ext, path_file,
    path_ok, path_stem,
};
use crate::vpk::{ArchiveError, EMBEDDED_ARCHIVE, HEADER_LENGTH, RECORD_TERMINATOR, SIGNATURE};

verus! {

/// Splits `p` into directory, name and extension, if it can be stored.
pub fn split_path(p: &Vec<u8>) -> (r: Option<(Vec<u8>, Vec<u8>, Vec<u8>)>)
    ensures
        r is Some <==> path_ok(p@),
        r matches Some(t) ==> t.0@ == path_dir(p@) && t.1@ == path_stem(p@) && t.2@ == path_ext(p@),
{
    let len = p.len();
    let mut i: usize = 0;
    while i < len
        invariant
            len == p@.len(),
            i <= len,
            forall|j: int| 0 <= j < i ==> p@[j] != 0,
        decreases len - i,
    {
        if p[i] == 0 {
            return None;
        }
        i = i + 1;
    }
    let mut ns: usize = len;
    while ns > 0 && p[ns - 1] != 47
        invariant
            ns <= len == p@.len(),
            name_start(p@, ns as int) == name_start(p@, len as int),
        decreases ns,
    {
        ns = ns - 1;
    }
    let ghost f = path_file(p@);
    proof {
        lemma_name_start(p@, len as int);
    }
    let mut k: usize = len;
    while k > ns && p[k - 1] != 46
        invariant
            ns <= k <= len == p@.len(),
            ns == name_start(p@, len as int),
            f == p@.subrange(ns as int, len as int),
            last_dot(f, k - ns) == last_dot(f, f.len() as int),
        decreases k,
    {
        assert(f[k - ns - 1] == p@[k - 1]);
        k = k - 1;
    }
    proof {
        if k > ns {
            assert(f[k - ns - 1] == p@[k - 1]);
            assert(last_dot(f, f.len() as int) == k - ns - 1);
        } else {
            assert(last_dot(f, f.len() as int) == -1);
        }
    }
    if k - ns < 2 || k >= len {
        return None;
    }
    if ns > 0 && (ns < 2 || (ns == 2 && p[0] == 32)) {
        proof {
            if ns == 2 {
                assert(path_dir(p@) =~= seq![32u8]);
            }
        }
        return None;
    }
    proof {
        if ns == 2 {
            assert(path_dir(p@)[0] != seq![32u8][0]);
        }
    }
    let dir = if ns == 0 {
        Vec::new()
    } else {
        range_to_vec(p.as_slice(), 0, ns - 1)
    };
    proof {
        if ns > 2 {
            assert(path_dir(p@).len() != seq![32u8].len());
        }
    }
    let stem = range_to_vec(p.as_slice(), ns, k - 1);
    let ext = range_to_vec(p.as_slice(), k, len);
    assert(stem@ =~= path_stem(p@));
    assert(ext@ =~= path_ext(p@));
    assert(dir@ =~= path_dir(p@));
    Some((dir, stem, ext))
}

/// A file in the directory tree: its name and where it stands in the set.
pub struct TreeFile {
    pub name: Vec<u8>,
    pub entry: usize,
}

/// The files of one extension that share a directory.
pub struct DirGroup {
    pub dir: Vec<u8>,
    pub files: Vec<TreeFile>,
}

/// The files that share an extension, by directory.
pub struct ExtGroup {
    pub ext: Vec<u8>,
    pub dirs: Vec<DirGroup>,
}

/// The files of a set grouped by extension, then by directory.
pub struct DirectoryTree {
    pub exts: Vec<ExtGroup>,
}

pub type SpecFile = (Seq<u8>, int);

pub type SpecDir = (Seq<u8>, Seq<SpecFile>);

pub type SpecExt = (Seq<u8>, Seq<SpecDir>);

pub open spec fn files_view(v: Seq<TreeFile>) -> Seq<SpecFile> {
    v.map_values(|f: TreeFile| (f.name@, f.entry as int))
}

pub open spec fn dirs_view(v: Seq<DirGroup>) -> Seq<SpecDir> {
    v.map_values(|d: DirGroup| (d.dir@, files_view(d.files@)))
}

pub open spec fn exts_view(v: Seq<ExtGroup>) -> Seq<SpecExt> {
    v.map_values(|e: ExtGroup| (e.ext@, dirs_view(e.dirs@)))
}

impl View for DirectoryTree {
    type V = Seq<SpecExt>;

    open spec fn view(&self) -> Seq<SpecExt> {
        exts_view(self.exts@)
    }
}

/// Whether the file at `(i, j, k)` of `t` is the `pairs` entry it names,
/// filed under that entry's extension, directory and name.
pub open spec fn leaf_ok(t: Seq<SpecExt>, pairs: Seq<(Seq<u8>, Seq<u8>)>, i: int, j: int, k: int) -> bool {
    let x = t[i].1[j].1[k].1;
    &&& 0 <= x < pairs.len()
    &&& path_ext(pairs[x].0) == t[i].0
    &&& path_dir(pairs[x].0) == t[i].1[j].0
    &&& path_stem(pairs[x].0) == t[i].1[j].1[k].0
}

pub open spec fn is_leaf(t: Seq<SpecExt>, i: int, j: int, k: int) -> bool {
    0 <= i < t.len() && 0 <= j < t[i].1.len() && 0 <= k < t[i].1[j].1.len()
}

/// Whether entry `x` is filed somewhere in `t`.
pub open spec fn filed(t: Seq<SpecExt>, x: int) -> bool {
    exists|i: int, j: int, k: int| #[trigger] is_leaf(t, i, j, k) && t[i].1[j].1[k].1 == x
}

/// Whether `t` files each of the first `n` entries of `pairs` exactly once,
/// under its own extension, directory and name, with one group per
/// extension and, within it, one per directory.
pub open spec fn groups_files(t: Seq<SpecExt>, pairs: Seq<(Seq<u8>, Seq<u8>)>, n: int) -> bool {
    &&& forall|i: int, j: int, k: int| #[trigger] is_leaf(t, i, j, k) ==> leaf_ok(t, pairs, i, j, k) && t[i].1[j].1[k].1 < n
    &&& forall|i1: int, i2: int| 0 <= i1 < t.len() && 0 <= i2 < t.len() && i1 != i2 ==> #[trigger] t[i1].0 != #[trigger] t[i2].0
    &&& forall|i: int, j1: int, j2: int|
        0 <= i < t.len() && 0 <= j1 < t[i].1.len() && 0 <= j2 < t[i].1.len() && j1 != j2
            ==> #[trigger] t[i].1[j1].0 != #[trigger] t[i].1[j2].0
    &&& forall|x: int| 0 <= x < n ==> #[trigger] filed(t, x)
    &&& forall|i: int| 0 <= i < t.len() ==> (#[trigger] t[i]).1.len() > 0
    &&& forall|i: int, j: int| 0 <= i < t.len() && 0 <= j < t[i].1.len() ==> (#[trigger] t[i].1[j]).1.len() > 0
    &&& forall|i1: int, j1: int, k1: int, i2: int, j2: int, k2: int|
        #[trigger] is_leaf(t, i1, j1, k1) && #[trigger] is_leaf(t, i2, j2, k2)
            && t[i1].1[j1].1[k1].1 == t[i2].1[j2].1[k2].1 ==> i1 == i2 && j1 == j2 && k1 == k2
}

/// Adding one file to a tree that files the first `x` entries, as leaf
/// `(a, b, c)`, gives a tree that files the first `x + 1`.
proof fn lemma_grow(
    t: Seq<SpecExt>,
    t2: Seq<SpecExt>,
    pairs: Seq<(Seq<u8>, Seq<u8>)>,
    x: int,
    a: int,
    b: int,
    c: int,
)
    requires
        groups_files(t, pairs, x),
        0 <= x < pairs.len(),
        is_leaf(t2, a, b, c),
        !is_leaf(t, a, b, c),
        t2[a].1[b].1[c].1 == x,
        leaf_ok(t2, pairs, a, b, c),
        forall|i: int, j: int, k: int| #[trigger] is_leaf(t, i, j, k) ==> is_leaf(t2, i, j, k)
            && t2[i].1[j].1[k] == t[i].1[j].1[k] && t2[i].0 == t[i].0 && t2[i].1[j].0 == t[i].1[j].0,
        forall|i: int, j: int, k: int| #[trigger] is_leaf(t2, i, j, k) ==> is_leaf(t, i, j, k) || (i == a && j == b && k == c),
        forall|i1: int, i2: int| 0 <= i1 < t2.len() && 0 <= i2 < t2.len() && i1 != i2 ==> #[trigger] t2[i1].0 != #[trigger] t2[i2].0,
        forall|i: int, j1: int, j2: int|
            0 <= i < t2.len() && 0 <= j1 < t2[i].1.len() && 0 <= j2 < t2[i].1.len() && j1 != j2
                ==> #[trigger] t2[i].1[j1].0 != #[trigger] t2[i].1[j2].0,
        forall|i: int| 0 <= i < t2.len() ==> (#[trigger] t2[i]).1.len() > 0,
        forall|i: int, j: int| 0 <= i < t2.len() && 0 <= j < t2[i].1.len() ==> (#[trigger] t2[i].1[j]).1.len() > 0,
    ensures
        groups_files(t2, pairs, x + 1),
{
    assert forall|i: int, j: int, k: int| #[trigger] is_leaf(t2, i, j, k) implies leaf_ok(t2, pairs, i, j, k)
        && t2[i].1[j].1[k].1 < x + 1 by {
        if is_leaf(t, i, j, k) {
            assert(leaf_ok(t, pairs, i, j, k));
        }
    }
    assert forall|y: int| 0 <= y < x + 1 implies #[trigger] filed(t2, y) by {
        if y == x {
            assert(is_leaf(t2, a, b, c));
        } else {
            assert(filed(t, y));
            let (i, j, k) = choose|i: int, j: int, k: int| #[trigger] is_leaf(t, i, j, k) && t[i].1[j].1[k].1 == y;
            assert(is_leaf(t2, i, j, k));
        }
    }
    assert forall|i1: int, j1: int, k1: int, i2: int, j2: int, k2: int|
        #[trigger] is_leaf(t2, i1, j1, k1) && #[trigger] is_leaf(t2, i2, j2, k2)
            && t2[i1].1[j1].1[k1].1 == t2[i2].1[j2].1[k2].1 implies i1 == i2 && j1 == j2 && k1 == k2 by {
        if is_leaf(t, i1, j1, k1) && is_leaf(t, i2, j2, k2) {
        } else if is_leaf(t, i1, j1, k1) {
            assert(t[i1].1[j1].1[k1].1 < x);
        } else if is_leaf(t, i2, j2, k2) {
            assert(t[i2].1[j2].1[k2].1 < x);
        }
    }
}

/// A directory group that holds one file.
fn single_dir(dir: Vec<u8>, name: Vec<u8>, entry: usize) -> (r: DirGroup)
    ensures
        r.dir@ == dir@,
        files_view(r.files@) == seq![(name@, entry as int)],
{
    let mut files: Vec<TreeFile> = Vec::new();
    files.push(TreeFile { name, entry });
    let r = DirGroup { dir, files };
    assert(files_view(r.files@) =~= seq![(r.files@[0].name@, entry as int)]);
    r
}

/// Groups the files of `files` by extension, then by directory. Fails when a
/// path cannot be split into directory, name and extension.
pub fn build_tree(files: &FileSet) -> (r: Result<DirectoryTree, ArchiveError>)
    ensures
        r is Err <==> exists|x: int| 0 <= x < files.entries@.len() && !path_ok(#[trigger] files.entries@[x].path@),
        r matches Err(e) ==> e == ArchiveError::InvalidPath,
        r matches Ok(t) ==> groups_files(t@, files.pairs(), files.entries@.len() as int),
{
    let ghost pairs = files.pairs();
    let n = files.entries.len();
    let mut tree = DirectoryTree { exts: Vec::new() };
    let mut x: usize = 0;
    while x < n
        invariant
            x <= n == files.entries@.len(),
            pairs == files.pairs(),
            groups_files(tree@, pairs, x as int),
            forall|y: int| 0 <= y < x ==> path_ok(#[trigger] files.entries@[y].path@),
        decreases n - x,
    {
        let (dir, stem, ext) = match split_path(&files.entries[x].path) {
            None => {
                return Err(ArchiveError::InvalidPath);
            },
            Some(parts) => parts,
        };
        assert(pairs[x as int].0 == files.entries@[x as int].path@);
        let ghost t = tree@;
        let ne = tree.exts.len();
        let mut i: usize = 0;
        while i < ne && !bytes_eq(tree.exts[i].ext.as_slice(), ext.as_slice())
            invariant
                i <= ne == tree.exts@.len(),
                t == tree@,
                forall|q: int| 0 <= q < i ==> t[q].0 != ext@,
            decreases ne - i,
        {
            i = i + 1;
        }
        if i == ne {
            let dg = single_dir(dir, stem, x);
            let mut dirs: Vec<DirGroup> = Vec::new();
            dirs.push(dg);
            tree.exts.push(ExtGroup { ext, dirs });
            proof {
                let t2 = tree@;
                assert(t2 =~= t.push(t2[i as int]));
                assert(t2[i as int].1 =~= seq![t2[i as int].1[0]]);
                lemma_grow(t, t2, pairs, x as int, i as int, 0, 0);
            }
        } else {
            let mut eg = tree.exts.remove(i);
            let ghost e0 = eg.ext@;
            assert(e0 == t[i as int].0);
            let nd = eg.dirs.len();
            let ghost ds = dirs_view(eg.dirs@);
            assert(ds == t[i as int].1);
            let mut j: usize = 0;
            while j < nd && !bytes_eq(eg.dirs[j].dir.as_slice(), dir.as_slice())
                invariant
                    j <= nd == eg.dirs@.len(),
                    ds == dirs_view(eg.dirs@),
                    forall|q: int| 0 <= q < j ==> ds[q].0 != dir@,
                decreases nd - j,
            {
                j = j + 1;
            }
            let ghost c: int;
            if j == nd {
                let dg = single_dir(dir, stem, x);
                eg.dirs.push(dg);
                proof {
                    c = 0;
                }
            } else {
                let mut dg = eg.dirs.remove(j);
                proof {
                    c = dg.files@.len() as int;
                }
                dg.files.push(TreeFile { name: stem, entry: x });
                eg.dirs.insert(j, dg);
            }
            tree.exts.insert(i, eg);
            proof {
                let t2 = tree@;
                assert(t2 =~= t.update(i as int, t2[i as int]));
                assert(t2[i as int].0 == t[i as int].0);
                assert(forall|q: int| 0 <= q < t.len() ==> #[trigger] t2[q].0 == t[q].0);
                if j == nd {
                    assert(t2[i as int].1 =~= t[i as int].1.push(t2[i as int].1[j as int]));
                    assert(t2[i as int].1[j as int].1 =~= seq![t2[i as int].1[j as int].1[0]]);
                    assert(t2[i as int].1[j as int].0 == dir@);
                    assert(forall|q: int| 0 <= q < nd ==> #[trigger] t2[i as int].1[q].0 == ds[q].0);
                } else {
                    assert(t2[i as int].1 =~= t[i as int].1.update(j as int, t2[i as int].1[j as int]));
                    assert(t2[i as int].1[j as int].1 =~= t[i as int].1[j as int].1.push((stem@, x as int)));
                    assert(t2[i as int].1[j as int].0 == ds[j as int].0);
                    assert(forall|q: int| 0 <= q < nd ==> #[trigger] t2[i as int].1[q].0 == ds[q].0);
                }
                assert forall|i1: int, j1: int, k1: int| #[trigger] is_leaf(t, i1, j1, k1) implies is_leaf(t2, i1, j1, k1)
                    && t2[i1].1[j1].1[k1] == t[i1].1[j1].1[k1] && t2[i1].0 == t[i1].0
                    && t2[i1].1[j1].0 == t[i1].1[j1].0 by {}
                lemma_grow(t, t2, pairs, x as int, i as int, j as int, c);
            }
        }
        x = x + 1;
    }
    Ok(tree)
}

/// The format version that this library writes.
pub const WRITE_VERSION: u32 = 2;

/// Length of the three trailing digests.
pub const SELF_HASHES_LENGTH: u32 = 48;

/// The directory string written for `d`: a lone space stands for the root.
pub open spec fn dir_string(d: Seq<u8>) -> Seq<u8> {
    if d.len() == 0 {
        seq![32u8]
    } else {
        d
    }
}

/// The fixed part of the index record of a file with checksum `crc`, stored
/// in the archive at `offset` in the payload section, `len` bytes long.
pub open spec fn record_bytes(crc: u32, offset: int, len: int) -> Seq<u8> {
    u32_bytes(crc) + u16_bytes(0) + u16_bytes(EMBEDDED_ARCHIVE) + u32_bytes(offset as u32)
        + u32_bytes(len as u32) + u16_bytes(RECORD_TERMINATOR)
}

/// The tree bytes of the files `ns` of one directory, and the payload section
/// that grows from `pay` as their payloads are appended.
pub open spec fn enc_names(ns: Seq<SpecFile>, pairs: Seq<(Seq<u8>, Seq<u8>)>, pay: Seq<u8>) -> (Seq<u8>, Seq<u8>)
    decreases ns.len(),
{
    if ns.len() == 0 {
        (Seq::empty(), pay)
    } else {
        let prev = enc_names(ns.drop_last(), pairs, pay);
        let d = pairs[ns.last().1].1;
        (
            prev.0 + ns.last().0 + seq![0u8] + record_bytes(crc32_cksum(d), prev.1.len() as int, d.len() as int),
            prev.1 + d,
        )
    }
}

/// The tree bytes of the directory groups `ds` of one extension, and the
/// payload section that grows from `pay`.
pub open spec fn enc_dirs(ds: Seq<SpecDir>, pairs: Seq<(Seq<u8>, Seq<u8>)>, pay: Seq<u8>) -> (Seq<u8>, Seq<u8>)
    decreases ds.len(),
{
    if ds.len() == 0 {
        (Seq::empty(), pay)
    } else {
        let prev = enc_dirs(ds.drop_last(), pairs, pay);
        let inner = enc_names(ds.last().1, pairs, prev.1);
        (prev.0 + dir_string(ds.last().0) + seq![0u8] + inner.0 + seq![0u8], inner.1)
    }
}

/// The tree bytes of the extension groups `es`, and the payload section that
/// grows from `pay`.
pub open spec fn enc_exts(es: Seq<SpecExt>, pairs: Seq<(Seq<u8>, Seq<u8>)>, pay: Seq<u8>) -> (Seq<u8>, Seq<u8>)
    decreases es.len(),
{
    if es.len() == 0 {
        (Seq::empty(), pay)
    } else {
        let prev = enc_exts(es.drop_last(), pairs, pay);
        let inner = enc_dirs(es.last().1, pairs, prev.1);
        (prev.0 + es.last().0 + seq![0u8] + inner.0 + seq![0u8], inner.1)
    }
}

/// The tree section for `t`, closed by its final empty string.
pub open spec fn tree_bytes(t: Seq<SpecExt>, pairs: Seq<(Seq<u8>, Seq<u8>)>) -> Seq<u8> {
    enc_exts(t, pairs, Seq::empty()).0 + seq![0u8]
}

/// The payload section for `t`.
pub open spec fn payload_bytes(t: Seq<SpecExt>, pairs: Seq<(Seq<u8>, Seq<u8>)>) -> Seq<u8> {
    enc_exts(t, pairs, Seq::empty()).1
}

pub open spec fn header_bytes(tree_length: u32, embed_length: u32) -> Seq<u8> {
    u32_bytes(SIGNATURE) + u32_bytes(WRITE_VERSION) + u32_bytes(tree_length) + u32_bytes(embed_length)
        + u32_bytes(0) + u32_bytes(SELF_HASHES_LENGTH) + u32_bytes(0)
}

/// Whether the tree and payload sections for `t` fit the header's fields.
pub open spec fn fits_u32(t: Seq<SpecExt>, pairs: Seq<(Seq<u8>, Seq<u8>)>) -> bool {
    tree_bytes(t, pairs).len() <= u32::MAX && payload_bytes(t, pairs).len() <= u32::MAX
}

/// The header, tree section, payload section, tree digest and digest of the
/// (empty) chunk-hash section, in that order.
pub open spec fn archive_body(t: Seq<SpecExt>, pairs: Seq<(Seq<u8>, Seq<u8>)>) -> Seq<u8> {
    let tree = tree_bytes(t, pairs);
    let pay = payload_bytes(t, pairs);
    header_bytes(tree.len() as u32, pay.len() as u32) + tree + pay + md5_digest(tree) + md5_digest(Seq::empty())
}

/// The archive for `t`: its body, then the digest of the body.
pub open spec fn archive_bytes(t: Seq<SpecExt>, pairs: Seq<(Seq<u8>, Seq<u8>)>) -> Seq<u8> {
    archive_body(t, pairs) + md5_digest(archive_body(t, pairs))
}

/// Appends the whole of `b` to `out`.
fn push_all(out: &mut Vec<u8>, b: &[u8])
    ensures
        final(out)@ == old(out)@ + b@,
{
    push_range(out, b, 0, b.len());
    assert(b@.subrange(0, b@.len() as int) =~= b@);
}

/// Whether every file of `ns` names an entry among the first `n`.
pub open spec fn names_in(ns: Seq<SpecFile>, n: int) -> bool {
    forall|k: int| 0 <= k < ns.len() ==> 0 <= #[trigger] ns[k].1 < n
}

/// Appends the tree bytes of the files of `dg` to `tb` and their payloads to `pay`.
fn encode_names(files: &FileSet, dg: &DirGroup, tb: &mut Vec<u8>, pay: &mut Vec<u8>)
    requires
        names_in(files_view(dg.files@), files.entries@.len() as int),
    ensures
        final(tb)@ == old(tb)@ + enc_names(files_view(dg.files@), files.pairs(), old(pay)@).0,
        final(pay)@ == enc_names(files_view(dg.files@), files.pairs(), old(pay)@).1,
{
    let ghost pairs = files.pairs();
    let ghost ns_all = files_view(dg.files@);
    let ghost tb1 = tb@;
    let ghost p1 = pay@;
    let nf = dg.files.len();
    let mut k: usize = 0;
    assert(ns_all.subrange(0, 0) =~= Seq::<SpecFile>::empty());
    while k < nf
        invariant
            pairs == files.pairs(),
            ns_all == files_view(dg.files@),
            names_in(ns_all, files.entries@.len() as int),
            k <= nf == ns_all.len(),
            tb@ == tb1 + enc_names(ns_all.subrange(0, k as int), pairs, p1).0,
            pay@ == enc_names(ns_all.subrange(0, k as int), pairs, p1).1,
        decreases nf - k,
    {
        let f = &dg.files[k];
        assert(ns_all[k as int] == (f.name@, f.entry as int));
        assert(0 <= ns_all[k as int].1 < files.entries@.len());
        let ghost tb2 = tb@;
        let ghost p2 = pay@;
        let d = &files.entries[f.entry].data;
        assert(pairs[f.entry as int].1 == d@);
        push_all(tb, f.name.as_slice());
        tb.push(0);
        let crc = crc32_of(d.as_slice());
        push_u32(tb, crc);
        push_u16(tb, 0);
        push_u16(tb, EMBEDDED_ARCHIVE);
        let off: u32 = #[verifier::truncate] (pay.len() as u32);
        push_u32(tb, off);
        let len: u32 = #[verifier::truncate] (d.len() as u32);
        push_u32(tb, len);
        push_u16(tb, RECORD_TERMINATOR);
        push_all(pay, d.as_slice());
        proof {
            let nk = ns_all.subrange(0, k + 1);
            assert(nk.drop_last() =~= ns_all.subrange(0, k as int));
            assert(nk.last() == ns_all[k as int]);
            assert(tb@ =~= tb2 + f.name@ + seq![0u8] + record_bytes(crc32_cksum(d@), p2.len() as int, d@.len() as int));
        }
        k = k + 1;
    }
    assert(ns_all.subrange(0, nf as int) =~= ns_all);
}

/// Appends the tree bytes of the directory groups of `eg` to `tb` and their
/// payloads to `pay`.
fn encode_dirs(files: &FileSet, eg: &ExtGroup, tb: &mut Vec<u8>, pay: &mut Vec<u8>)
    requires
        forall|j: int| 0 <= j < eg.dirs@.len() ==> names_in(#[trigger] dirs_view(eg.dirs@)[j].1, files.entries@.len() as int),
    ensures
        final(tb)@ == old(tb)@ + enc_dirs(dirs_view(eg.dirs@), files.pairs(), old(pay)@).0,
        final(pay)@ == enc_dirs(dirs_view(eg.dirs@), files.pairs(), old(pay)@).1,
{
    let ghost pairs = files.pairs();
    let ghost ds_all = dirs_view(eg.dirs@);
    let ghost tb0 = tb@;
    let ghost p0 = pay@;
    let nd = eg.dirs.len();
    let mut j: usize = 0;
    assert(ds_all.subrange(0, 0) =~= Seq::<SpecDir>::empty());
    while j < nd
        invariant
            pairs == files.pairs(),
            ds_all == dirs_view(eg.dirs@),
            forall|j: int| 0 <= j < eg.dirs@.len() ==> names_in(#[trigger] dirs_view(eg.dirs@)[j].1, files.entries@.len() as int),
            j <= nd == ds_all.len(),
            tb@ == tb0 + enc_dirs(ds_all.subrange(0, j as int), pairs, p0).0,
            pay@ == enc_dirs(ds_all.subrange(0, j as int), pairs, p0).1,
        decreases nd - j,
    {
        let dg = &eg.dirs[j];
        let ghost tb1 = tb@;
        let ghost p1 = pay@;
        assert(dg.dir@ == ds_all[j as int].0);
        assert(files_view(dg.files@) == ds_all[j as int].1);
        if dg.dir.len() == 0 {
            tb.push(32);
        } else {
            push_all(tb, dg.dir.as_slice());
        }
        tb.push(0);
        assert(tb@ =~= tb1 + dir_string(ds_all[j as int].0) + seq![0u8]);
        encode_names(files, dg, tb, pay);
        tb.push(0);
        proof {
            let dj = ds_all.subrange(0, j + 1);
            assert(dj.drop_last() =~= ds_all.subrange(0, j as int));
            assert(dj.last() == ds_all[j as int]);
            assert(tb@ =~= tb0 + enc_dirs(dj, pairs, p0).0);
        }
        j = j + 1;
    }
    assert(ds_all.subrange(0, nd as int) =~= ds_all);
}

/// The tree section and the payload section for `tree`.
fn encode_sections(files: &FileSet, tree: &DirectoryTree) -> (r: (Vec<u8>, Vec<u8>))
    requires
        forall|i: int, j: int, k: int| #[trigger] is_leaf(tree@, i, j, k)
            ==> 0 <= tree@[i].1[j].1[k].1 < files.entries@.len(),
    ensures
        r.0@ == tree_bytes(tree@, files.pairs()),
        r.1@ == payload_bytes(tree@, files.pairs()),
{
    let ghost pairs = files.pairs();
    let ghost st = tree@;
    let mut tb: Vec<u8> = Vec::new();
    let mut pay: Vec<u8> = Vec::new();
    let ne = tree.exts.len();
    let mut i: usize = 0;
    assert(st.subrange(0, 0) =~= Seq::<SpecExt>::empty());
    while i < ne
        invariant
            i <= ne == st.len(),
            st == tree@,
            pairs == files.pairs(),
            forall|i: int, j: int, k: int| #[trigger] is_leaf(st, i, j, k) ==> 0 <= st[i].1[j].1[k].1 < files.entries@.len(),
            (tb@, pay@) == enc_exts(st.subrange(0, i as int), pairs, Seq::empty()),
        decreases ne - i,
    {
        let eg = &tree.exts[i];
        let ghost tb0 = tb@;
        assert(eg.ext@ == st[i as int].0);
        assert(dirs_view(eg.dirs@) == st[i as int].1);
        assert forall|j: int| 0 <= j < eg.dirs@.len() implies names_in(#[trigger] dirs_view(eg.dirs@)[j].1, files.entries@.len() as int) by {
            assert forall|k: int| 0 <= k < dirs_view(eg.dirs@)[j].1.len() implies 0 <= #[trigger] dirs_view(eg.dirs@)[j].1[k].1 < files.entries@.len() by {
                assert(is_leaf(st, i as int, j, k));
            }
        }
        push_all(&mut tb, eg.ext.as_slice());
        tb.push(0);
        encode_dirs(files, eg, &mut tb, &mut pay);
        tb.push(0);
        proof {
            let ei = st.subrange(0, i + 1);
            assert(ei.drop_last() =~= st.subrange(0, i as int));
            assert(ei.last() == st[i as int]);
            assert(tb@ =~= enc_exts(ei, pairs, Seq::empty()).0);
        }
        i = i + 1;
    }
    tb.push(0);
    assert(st.subrange(0, ne as int) =~= st);
    (tb, pay)
}

/// Encodes `tree`, whose files are entries of `files`, as a whole archive.
/// Fails when the tree or payload section is too long for the header.
pub fn encode_tree(files: &FileSet, tree: &DirectoryTree) -> (r: Result<Vec<u8>, ArchiveError>)
    requires
        forall|i: int, j: int, k: int| #[trigger] is_leaf(tree@, i, j, k)
            ==> 0 <= tree@[i].1[j].1[k].1 < files.entries@.len(),
    ensures
        r is Err <==> !fits_u32(tree@, files.pairs()),
        r matches Err(e) ==> e == ArchiveError::TooLarge,
        r matches Ok(out) ==> out@ == archive_bytes(tree@, files.pairs()) && out@.len() == HEADER_LENGTH
            + tree_bytes(tree@, files.pairs()).len() + payload_bytes(tree@, files.pairs()).len() + SELF_HASHES_LENGTH,
{
    let ghost pairs = files.pairs();
    let ghost st = tree@;
    let (tb, pay) = encode_sections(files, tree);
    if tb.len() > u32::MAX as usize || pay.len() > u32::MAX as usize {
        return Err(ArchiveError::TooLarge);
    }
    let mut out: Vec<u8> = Vec::new();
    push_u32(&mut out, SIGNATURE);
    push_u32(&mut out, WRITE_VERSION);
    push_u32(&mut out, tb.len() as u32);
    push_u32(&mut out, pay.len() as u32);
    push_u32(&mut out, 0);
    push_u32(&mut out, SELF_HASHES_LENGTH);
    push_u32(&mut out, 0);
    push_all(&mut out, tb.as_slice());
    push_all(&mut out, pay.as_slice());
    let tree_digest = md5_of(tb.as_slice());
    let empty: Vec<u8> = Vec::new();
    let chunk_digest = md5_of(empty.as_slice());
    push_all(&mut out, tree_digest.as_slice());
    push_all(&mut out, chunk_digest.as_slice());
    assert(empty@ =~= Seq::<u8>::empty());
    assert(out@ =~= archive_body(st, pairs));
    let file_digest = md5_of(out.as_slice());
    push_all(&mut out, file_digest.as_slice());
    Ok(out)
}

/// What writing `files` may give: `InvalidPath` exactly when some path
/// cannot be stored; `TooLarge` only when a grouping of the files has a tree
/// or payload section too long for the header; else the archive encoded from
/// a grouping of the files, 48 bytes of digests after the header, tree and
/// payload sections.
pub open spec fn write_result(files: FileSet, r: Result<Vec<u8>, ArchiveError>) -> bool {
    &&& (r == Err::<Vec<u8>, ArchiveError>(ArchiveError::InvalidPath)) <==> exists|x: int|
        0 <= x < files.entries@.len() && !path_ok(#[trigger] files.entries@[x].path@)
    &&& (r matches Err(e) ==> e == ArchiveError::InvalidPath || e == ArchiveError::TooLarge)
    &&& (r == Err::<Vec<u8>, ArchiveError>(ArchiveError::TooLarge) ==> exists|t: Seq<SpecExt>|
        groups_files(t, files.pairs(), files.entries@.len() as int) && !fits_u32(t, files.pairs()))
    &&& (r matches Ok(out) ==> exists|t: Seq<SpecExt>|
        groups_files(t, files.pairs(), files.entries@.len() as int) && fits_u32(t, files.pairs())
            && out@ == archive_bytes(t, files.pairs()) && out@.len() == HEADER_LENGTH
            + tree_bytes(t, files.pairs()).len() + payload_bytes(t, files.pairs()).len() + SELF_HASHES_LENGTH)
}

/// Writes the file set `vpk_data` as an archive: its files grouped by
/// extension and directory, each payload stored in the archive itself after
/// the tree, then the three digests. Fails when a path cannot be split into
/// directory, name and extension, or when a section is too long for the header.
/// Reading the result back gives `vpk_data` again (`law_round_trip`).
pub fn create_vpk(vpk_data: &FileSet) -> (r: Result<Vec<u8>, ArchiveError>)
    ensures
        write_result(*vpk_data, r),
{
    let tree = match build_tree(vpk_data) {
        Ok(t) => t,
        Err(e) => {
            return Err(e);
        },
    };
    let r = encode_tree(vpk_data, &tree);
    proof {
        if r is Ok || r == Err::<Vec<u8>, ArchiveError>(ArchiveError::TooLarge) {
            assert(groups_files(tree@, vpk_data.pairs(), vpk_data.entries@.len() as int));
        }
    }
    r
}

/// Bytes that the tree section for the files `ns` of one directory takes.
pub open spec fn names_len(ns: Seq<SpecFile>) -> int
    decreases ns.len(),
{
    if ns.len() == 0 {
        0
    } else {
        names_len(ns.drop_last()) + ns.last().0.len() + 19
    }
}

/// Bytes that the tree section for the directory groups `ds` takes.
pub open spec fn dirs_len(ds: Seq<SpecDir>) -> int
    decreases ds.len(),
{
    if ds.len() == 0 {
        0
    } else {
        dirs_len(ds.drop_last()) + dir_string(ds.last().0).len() + 2 + names_len(ds.last().1)
    }
}

/// Bytes that the tree section for the extension groups `es` takes.
pub open spec fn exts_len(es: Seq<SpecExt>) -> int
    decreases es.len(),
{
    if es.len() == 0 {
        0
    } else {
        exts_len(es.drop_last()) + es.last().0.len() + 2 + dirs_len(es.last().1)
    }
}

/// The tree length computed from the strings of the tree alone: one closing
/// byte, and per extension, directory and file its string's length and the
/// bytes that close it (and, for a file, its record).
pub open spec fn tree_length_formula(t: Seq<SpecExt>) -> int {
    1 + exts_len(t)
}

proof fn lemma_names_len(ns: Seq<SpecFile>, pairs: Seq<(Seq<u8>, Seq<u8>)>, pay: Seq<u8>)
    ensures
        enc_names(ns, pairs, pay).0.len() == names_len(ns),
    decreases ns.len(),
{
    if ns.len() > 0 {
        lemma_names_len(ns.drop_last(), pairs, pay);
    }
}

proof fn lemma_dirs_len(ds: Seq<SpecDir>, pairs: Seq<(Seq<u8>, Seq<u8>)>, pay: Seq<u8>)
    ensures
        enc_dirs(ds, pairs, pay).0.len() == dirs_len(ds),
    decreases ds.len(),
{
    if ds.len() > 0 {
        lemma_dirs_len(ds.drop_last(), pairs, pay);
        lemma_names_len(ds.last().1, pairs, enc_dirs(ds.drop_last(), pairs, pay).1);
    }
}

proof fn lemma_exts_len(es: Seq<SpecExt>, pairs: Seq<(Seq<u8>, Seq<u8>)>, pay: Seq<u8>)
    ensures
        enc_exts(es, pairs, pay).0.len() == exts_len(es),
    decreases es.len(),
{
    if es.len() > 0 {
        lemma_exts_len(es.drop_last(), pairs, pay);
        lemma_dirs_len(es.last().1, pairs, enc_exts(es.drop_last(), pairs, pay).1);
    }
}

/// A written archive opens with the signature, and the tree length that its
/// header declares is the one computed from the tree's strings.
pub proof fn law_written_header(t: Seq<SpecExt>, pairs: Seq<(Seq<u8>, Seq<u8>)>)
    requires
        fits_u32(t, pairs),
    ensures
        le_u32(archive_bytes(t, pairs), 0) == SIGNATURE,
        le_u32(archive_bytes(t, pairs), 8) == tree_length_formula(t),
{
    let out = archive_bytes(t, pairs);
    let tree = tree_bytes(t, pairs);
    lemma_exts_len(t, pairs, Seq::empty());
    let tl = tree.len() as u32;
    assert(tl == tree_length_formula(t));
    let h = header_bytes(tl, payload_bytes(t, pairs).len() as u32);
    assert(forall|i: int| 0 <= i < 4 ==> out[i] == #[trigger] u32_bytes(SIGNATURE)[i]);
    assert(forall|i: int| 0 <= i < 4 ==> out[8 + i] == #[trigger] u32_bytes(tl)[i]);
    lemma_u32_round_trip(SIGNATURE);
    lemma_u32_round_trip(tl);
}

} // verus!
