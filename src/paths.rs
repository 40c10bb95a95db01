//! Splitting a logical path into directory, file name and extension.
use vstd::prelude::*;
use crate::vpk::{dir_prefix, logical_path};
use crate::writer::dir_string;

verus! {

/// Where the last component of `p[..n]` starts: after its last `/`, or 0.
pub open spec fn name_start(p: Seq<u8>, n: int) -> int
    decreases n,
{
    if n <= 0 {
        0
    } else if p[n - 1] == 47 {
        n
    } else {
        name_start(p, n - 1)
    }
}

pub proof fn lemma_name_start(p: Seq<u8>, n: int)
    requires
        0 <= n <= p.len(),
    ensures
        0 <= name_start(p, n) <= n,
        name_start(p, n) > 0 ==> p[name_start(p, n) - 1] == 47,
    decreases n,
{
    if n > 0 && p[n - 1] != 47 {
        lemma_name_start(p, n - 1);
    }
}

/// Where the last `.` of `f[..n]` stands, or -1.
pub open spec fn last_dot(f: Seq<u8>, n: int) -> int
    decreases n,
{
    if n <= 0 {
        -1
    } else if f[n - 1] == 46 {
        n - 1
    } else {
        last_dot(f, n - 1)
    }
}

pub proof fn lemma_last_dot(f: Seq<u8>, n: int)
    requires
        0 <= n <= f.len(),
    ensures
        -1 <= last_dot(f, n) < n,
        last_dot(f, n) >= 0 ==> f[last_dot(f, n)] == 46,
    decreases n,
{
    if n > 0 && f[n - 1] != 46 {
        lemma_last_dot(f, n - 1);
    }
}

/// The last component of `p`.
pub open spec fn path_file(p: Seq<u8>) -> Seq<u8> {
    p.subrange(name_start(p, p.len() as int), p.len() as int)
}

/// The directory of `p`: what stands before its last `/`, or nothing.
pub open spec fn path_dir(p: Seq<u8>) -> Seq<u8> {
    let ns = name_start(p, p.len() as int);
    if ns == 0 {
        Seq::empty()
    } else {
        p.subrange(0, ns - 1)
    }
}

/// The file name of `p` without its extension.
pub open spec fn path_stem(p: Seq<u8>) -> Seq<u8> {
    let f = path_file(p);
    f.subrange(0, last_dot(f, f.len() as int))
}

/// What follows the last `.` of the file name of `p`.
pub open spec fn path_ext(p: Seq<u8>) -> Seq<u8> {
    let f = path_file(p);
    f.subrange(last_dot(f, f.len() as int) + 1, f.len() as int)
}

/// Whether `p` can be stored in an archive: no zero byte, a non-empty name
/// and a non-empty extension, and a directory (if any) that is neither empty
/// nor the lone space that stands for the root.
pub open spec fn path_ok(p: Seq<u8>) -> bool {
    let ns = name_start(p, p.len() as int);
    let f = path_file(p);
    let d = last_dot(f, f.len() as int);
    &&& forall|i: int| 0 <= i < p.len() ==> p[i] != 0
    &&& 1 <= d < f.len() - 1
    &&& (ns == 0 || (ns >= 2 && path_dir(p) != seq![32u8]))
}

/// A path that can be stored is its directory prefix, name, a dot, and its
/// extension.
pub proof fn lemma_path_parts(p: Seq<u8>)
    requires
        path_ok(p),
    ensures
        logical_path(dir_prefix(dir_string(path_dir(p))), path_stem(p), path_ext(p)) == p,
        path_ext(p).len() > 0,
        path_stem(p).len() > 0,
        forall|i: int| 0 <= i < path_ext(p).len() ==> path_ext(p)[i] != 0,
        forall|i: int| 0 <= i < path_stem(p).len() ==> path_stem(p)[i] != 0,
        forall|i: int| 0 <= i < path_dir(p).len() ==> path_dir(p)[i] != 0,
{
    let ns = name_start(p, p.len() as int);
    lemma_name_start(p, p.len() as int);
    let f = path_file(p);
    let d = last_dot(f, f.len() as int);
    lemma_last_dot(f, f.len() as int);
    assert(path_stem(p) + seq![46u8] + path_ext(p) =~= f);
    assert(forall|i: int| 0 <= i < f.len() ==> f[i] == p[ns + i]);
    if ns == 0 {
        assert(dir_prefix(dir_string(path_dir(p))) =~= Seq::<u8>::empty());
        assert(f =~= p);
        assert(logical_path(Seq::empty(), path_stem(p), path_ext(p)) =~= p);
    } else {
        let dir = path_dir(p);
        assert(dir.len() > 0);
        assert(dir_string(dir) == dir);
        assert(dir_prefix(dir) == dir + seq![47u8]);
        assert(dir + seq![47u8] + f =~= p);
        assert(logical_path(dir + seq![47u8], path_stem(p), path_ext(p)) =~= p);
    }
}

} // verus!
