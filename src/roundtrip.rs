//! Reading back a written archive gives back the files that were written.
use vstd::prelude::*;
use crate::bytes::{le_u16, le_u32, lemma_u16_round_trip, lemma_u32_round_trip, u16_bytes, u32_bytes};
use crate::checksum::crc32_cksum;
use crate::fileset::{
    keys_unique, lemma_pairs_map_dom, lemma_pairs_map_index, lemma_pairs_map_value, pairs_map,
};
use crate::paths::{lemma_path_parts, path_ok};
use crate::vpk::{
    cstr_len, dir_prefix, logical_path, payload_pairs, payloads_in_bounds, spec_header, spec_index,
    spec_read, tree_limit, walk, ArchiveError, Record, WalkLevel, EMBEDDED_ARCHIVE,
    RECORD_TERMINATOR, SIGNATURE,
};
use crate::writer::{
    archive_body, archive_bytes, dir_string, enc_dirs, enc_exts, enc_names, filed, fits_u32,
    groups_files, header_bytes, is_leaf, leaf_ok, payload_bytes, record_bytes, tree_bytes, SpecDir,
    SpecExt, SpecFile, WRITE_VERSION,
};

verus! {

/// Whether `w` holds `s` at `p`.
pub open spec fn at(w: Seq<u8>, p: int, s: Seq<u8>) -> bool {
    0 <= p && p + s.len() <= w.len() && w.subrange(p, p + s.len()) == s
}

/// A string that the index can hold: not empty, and no zero byte in it.
pub open spec fn clean(s: Seq<u8>) -> bool {
    s.len() > 0 && forall|i: int| 0 <= i < s.len() ==> s[i] != 0
}

proof fn lemma_at_sub(w: Seq<u8>, p: int, s: Seq<u8>, a: int, b: int)
    requires
        at(w, p, s),
        0 <= a <= b <= s.len(),
    ensures
        at(w, p + a, s.subrange(a, b)),
{
    assert(w.subrange(p + a, p + b) =~= s.subrange(a, b)) by {
        assert forall|i: int| 0 <= i < b - a implies w.subrange(p + a, p + b)[i] == s.subrange(a, b)[i] by {
            assert(w.subrange(p, p + s.len())[a + i] == s[a + i]);
        }
    }
}

proof fn lemma_cstr(w: Seq<u8>, p: int, s: Seq<u8>)
    requires
        at(w, p, s),
        forall|i: int| 0 <= i < s.len() ==> s[i] != 0,
        p + s.len() < w.len(),
        w[p + s.len()] == 0,
    ensures
        cstr_len(w, p) == s.len(),
    decreases s.len(),
{
    if s.len() > 0 {
        assert(w[p] == w.subrange(p, p + s.len())[0]);
        lemma_at_sub(w, p, s, 1, s.len() as int);
        lemma_cstr(w, p + 1, s.subrange(1, s.len() as int));
    }
}

proof fn lemma_record_fields(w: Seq<u8>, q: int, crc: u32, off: int, len: int)
    requires
        at(w, q, record_bytes(crc, off, len)),
    ensures
        le_u32(w, q) == crc,
        le_u16(w, q + 4) == 0,
        le_u16(w, q + 6) == EMBEDDED_ARCHIVE,
        le_u32(w, q + 8) == off as u32,
        le_u32(w, q + 12) == len as u32,
        le_u16(w, q + 16) == RECORD_TERMINATOR,
{
    let rb = record_bytes(crc, off, len);
    assert forall|i: int| 0 <= i < 18 implies w[q + i] == rb[i] by {
        assert(w.subrange(q, q + 18)[i] == w[q + i]);
    }
    let z = u32_bytes(crc);
    assert(rb[0] == z[0] && rb[1] == z[1] && rb[2] == z[2] && rb[3] == z[3]);
    lemma_u32_round_trip(crc);
    let a = u16_bytes(0);
    let b = u16_bytes(EMBEDDED_ARCHIVE);
    let c = u32_bytes(off as u32);
    let d = u32_bytes(len as u32);
    let e = u16_bytes(RECORD_TERMINATOR);
    assert(rb[4] == a[0] && rb[5] == a[1]);
    assert(rb[6] == b[0] && rb[7] == b[1]);
    assert(rb[8] == c[0] && rb[9] == c[1] && rb[10] == c[2] && rb[11] == c[3]);
    assert(rb[12] == d[0] && rb[13] == d[1] && rb[14] == d[2] && rb[15] == d[3]);
    assert(rb[16] == e[0] && rb[17] == e[1]);
    lemma_u16_round_trip(0);
    lemma_u16_round_trip(EMBEDDED_ARCHIVE);
    lemma_u16_round_trip(RECORD_TERMINATOR);
    lemma_u32_round_trip(off as u32);
    lemma_u32_round_trip(len as u32);
}

/// Outside a directory, the walk does not depend on the directory prefix it
/// carries, and at the level of extensions not on the extension either.
proof fn lemma_walk_irrelevant(
    w: Seq<u8>,
    base: int,
    lvl: WalkLevel,
    e1: Seq<u8>,
    pa: Seq<u8>,
    e2: Seq<u8>,
    pb: Seq<u8>,
    pos: int,
    recs: Seq<Record>,
)
    requires
        lvl != WalkLevel::Names,
        lvl == WalkLevel::Directories ==> e1 == e2,
    ensures
        walk(w, base, lvl, e1, pa, pos, recs) == walk(w, base, lvl, e2, pb, pos, recs),
    decreases w.len() - pos,
{
    let end = pos + cstr_len(w, pos);
    if end < w.len() {
        let s = w.subrange(pos, end);
        let next = end + 1;
        if lvl == WalkLevel::Extensions && s.len() != 0 {
            lemma_walk_irrelevant(w, base, WalkLevel::Directories, s, pa, s, pb, next, recs);
        } else if lvl == WalkLevel::Directories && s.len() == 0 {
            lemma_walk_irrelevant(w, base, WalkLevel::Extensions, e1, pa, e2, pb, next, recs);
        }
    }
}

/// Reading one file's name and record.
proof fn lemma_walk_name(
    w: Seq<u8>,
    base: int,
    ext: Seq<u8>,
    prefix: Seq<u8>,
    pos: int,
    recs: Seq<Record>,
    n: Seq<u8>,
    crc: u32,
    off: int,
    len: int,
)
    requires
        clean(n),
        at(w, pos, n + seq![0u8] + record_bytes(crc, off, len)),
        0 <= off <= u32::MAX,
        0 <= len <= u32::MAX,
    ensures
        walk(w, base, WalkLevel::Names, ext, prefix, pos, recs) == walk(
            w,
            base,
            WalkLevel::Names,
            ext,
            prefix,
            pos + n.len() + 19,
            recs.push(
                (
                    logical_path(prefix, n, ext),
                    (off + base, len),
                    (crc as int, 0, EMBEDDED_ARCHIVE as int, len, Seq::empty()),
                ),
            ),
        ),
{
    let whole = n + seq![0u8] + record_bytes(crc, off, len);
    lemma_at_sub(w, pos, whole, 0, n.len() as int);
    assert(whole.subrange(0, n.len() as int) =~= n);
    assert(w[pos + n.len()] == w.subrange(pos, pos + whole.len())[n.len() as int]);
    lemma_cstr(w, pos, n);
    lemma_at_sub(w, pos, whole, n.len() + 1int, whole.len() as int);
    assert(whole.subrange(n.len() + 1int, whole.len() as int) =~= record_bytes(crc, off, len));
    lemma_record_fields(w, pos + n.len() + 1, crc, off, len);
    assert(w.subrange(pos, pos + n.len()) =~= n);
    assert(w.subrange(pos + n.len() + 19, pos + n.len() + 19) =~= Seq::<u8>::empty());
}

/// The records that the walk yields for the files `ns` of one directory.
pub open spec fn recs_names(
    ext: Seq<u8>,
    prefix: Seq<u8>,
    ns: Seq<SpecFile>,
    pairs: Seq<(Seq<u8>, Seq<u8>)>,
    pay: Seq<u8>,
    base: int,
) -> Seq<Record>
    decreases ns.len(),
{
    if ns.len() == 0 {
        Seq::empty()
    } else {
        let prev = enc_names(ns.drop_last(), pairs, pay);
        let d = pairs[ns.last().1].1;
        recs_names(ext, prefix, ns.drop_last(), pairs, pay, base).push(
            (
                logical_path(prefix, ns.last().0, ext),
                (base + prev.1.len(), d.len() as int),
                (crc32_cksum(d) as int, 0, EMBEDDED_ARCHIVE as int, d.len() as int, Seq::empty()),
            ),
        )
    }
}

pub open spec fn names_clean(ns: Seq<SpecFile>) -> bool {
    forall|k: int| 0 <= k < ns.len() ==> clean(#[trigger] ns[k].0)
}

#[verifier::rlimit(60)]
proof fn lemma_walk_names(
    w: Seq<u8>,
    base: int,
    ext: Seq<u8>,
    prefix: Seq<u8>,
    pos: int,
    recs: Seq<Record>,
    ns: Seq<SpecFile>,
    pairs: Seq<(Seq<u8>, Seq<u8>)>,
    pay: Seq<u8>,
)
    requires
        at(w, pos, enc_names(ns, pairs, pay).0),
        names_clean(ns),
        enc_names(ns, pairs, pay).1.len() <= u32::MAX,
    ensures
        walk(w, base, WalkLevel::Names, ext, prefix, pos, recs) == walk(
            w,
            base,
            WalkLevel::Names,
            ext,
            prefix,
            pos + enc_names(ns, pairs, pay).0.len(),
            recs + recs_names(ext, prefix, ns, pairs, pay, base),
        ),
    decreases ns.len(),
{
    if ns.len() == 0 {
        assert(recs + Seq::<Record>::empty() =~= recs);
    } else {
        let ns1 = ns.drop_last();
        let prev = enc_names(ns1, pairs, pay);
        let whole = enc_names(ns, pairs, pay).0;
        let n = ns.last().0;
        let d = pairs[ns.last().1].1;
        let rb = record_bytes(crc32_cksum(d), prev.1.len() as int, d.len() as int);
        assert(names_clean(ns1)) by {
            assert forall|k: int| 0 <= k < ns1.len() implies clean(#[trigger] ns1[k].0) by {
                assert(ns1[k] == ns[k]);
            }
        }
        assert(ns[ns.len() - 1] == ns.last());
        lemma_at_sub(w, pos, whole, 0, prev.0.len() as int);
        assert(whole.subrange(0, prev.0.len() as int) =~= prev.0);
        lemma_walk_names(w, base, ext, prefix, pos, recs, ns1, pairs, pay);
        lemma_at_sub(w, pos, whole, prev.0.len() as int, whole.len() as int);
        assert(whole.subrange(prev.0.len() as int, whole.len() as int) =~= n + seq![0u8] + rb);
        lemma_walk_name(
            w,
            base,
            ext,
            prefix,
            pos + prev.0.len(),
            recs + recs_names(ext, prefix, ns1, pairs, pay, base),
            n,
            crc32_cksum(d),
            prev.1.len() as int,
            d.len() as int,
        );
        assert((recs + recs_names(ext, prefix, ns1, pairs, pay, base)).push(
            (
                logical_path(prefix, n, ext),
                (prev.1.len() + base, d.len() as int),
                (crc32_cksum(d) as int, 0, EMBEDDED_ARCHIVE as int, d.len() as int, Seq::empty()),
            ),
        ) =~= recs + recs_names(ext, prefix, ns, pairs, pay, base));
    }
}

proof fn lemma_names_pay(ns: Seq<SpecFile>, pairs: Seq<(Seq<u8>, Seq<u8>)>, pay: Seq<u8>)
    ensures
        enc_names(ns, pairs, pay).1.len() >= pay.len(),
        enc_names(ns, pairs, pay).1.subrange(0, pay.len() as int) == pay,
    decreases ns.len(),
{
    if ns.len() > 0 {
        lemma_names_pay(ns.drop_last(), pairs, pay);
        let p = enc_names(ns.drop_last(), pairs, pay).1;
        let d = pairs[ns.last().1].1;
        assert((p + d).subrange(0, pay.len() as int) =~= p.subrange(0, pay.len() as int));
    }
}

proof fn lemma_dirs_pay(ds: Seq<SpecDir>, pairs: Seq<(Seq<u8>, Seq<u8>)>, pay: Seq<u8>)
    ensures
        enc_dirs(ds, pairs, pay).1.len() >= pay.len(),
        enc_dirs(ds, pairs, pay).1.subrange(0, pay.len() as int) == pay,
    decreases ds.len(),
{
    if ds.len() > 0 {
        let p = enc_dirs(ds.drop_last(), pairs, pay).1;
        lemma_dirs_pay(ds.drop_last(), pairs, pay);
        lemma_names_pay(ds.last().1, pairs, p);
        let q = enc_names(ds.last().1, pairs, p).1;
        assert(q.subrange(0, pay.len() as int) =~= q.subrange(0, p.len() as int).subrange(0, pay.len() as int));
    }
}

proof fn lemma_exts_pay(es: Seq<SpecExt>, pairs: Seq<(Seq<u8>, Seq<u8>)>, pay: Seq<u8>)
    ensures
        enc_exts(es, pairs, pay).1.len() >= pay.len(),
        enc_exts(es, pairs, pay).1.subrange(0, pay.len() as int) == pay,
    decreases es.len(),
{
    if es.len() > 0 {
        let p = enc_exts(es.drop_last(), pairs, pay).1;
        lemma_exts_pay(es.drop_last(), pairs, pay);
        lemma_dirs_pay(es.last().1, pairs, p);
        let q = enc_dirs(es.last().1, pairs, p).1;
        assert(q.subrange(0, pay.len() as int) =~= q.subrange(0, p.len() as int).subrange(0, pay.len() as int));
    }
}

/// The records that the walk yields for the directory groups `ds`.
pub open spec fn recs_dirs(
    ext: Seq<u8>,
    ds: Seq<SpecDir>,
    pairs: Seq<(Seq<u8>, Seq<u8>)>,
    pay: Seq<u8>,
    base: int,
) -> Seq<Record>
    decreases ds.len(),
{
    if ds.len() == 0 {
        Seq::empty()
    } else {
        let prev = enc_dirs(ds.drop_last(), pairs, pay);
        recs_dirs(ext, ds.drop_last(), pairs, pay, base) + recs_names(
            ext,
            dir_prefix(dir_string(ds.last().0)),
            ds.last().1,
            pairs,
            prev.1,
            base,
        )
    }
}

/// The records that the walk yields for the extension groups `es`.
pub open spec fn recs_exts(
    es: Seq<SpecExt>,
    pairs: Seq<(Seq<u8>, Seq<u8>)>,
    pay: Seq<u8>,
    base: int,
) -> Seq<Record>
    decreases es.len(),
{
    if es.len() == 0 {
        Seq::empty()
    } else {
        let prev = enc_exts(es.drop_last(), pairs, pay);
        recs_exts(es.drop_last(), pairs, pay, base) + recs_dirs(es.last().0, es.last().1, pairs, prev.1, base)
    }
}

pub open spec fn no_nul(s: Seq<u8>) -> bool {
    forall|i: int| 0 <= i < s.len() ==> s[i] != 0
}

pub open spec fn dirs_clean(ds: Seq<SpecDir>) -> bool {
    forall|j: int| 0 <= j < ds.len() ==> no_nul(#[trigger] ds[j].0) && names_clean(ds[j].1)
}

pub open spec fn exts_clean(es: Seq<SpecExt>) -> bool {
    forall|i: int| 0 <= i < es.len() ==> clean(#[trigger] es[i].0) && dirs_clean(es[i].1)
}

/// Reading one directory group: its string, its files, the empty string
/// that closes it.
proof fn lemma_walk_dir_group(
    w: Seq<u8>,
    base: int,
    ext: Seq<u8>,
    prefix: Seq<u8>,
    pos: int,
    recs: Seq<Record>,
    g: SpecDir,
    pairs: Seq<(Seq<u8>, Seq<u8>)>,
    pay: Seq<u8>,
)
    requires
        at(w, pos, dir_string(g.0) + seq![0u8] + enc_names(g.1, pairs, pay).0 + seq![0u8]),
        no_nul(g.0),
        names_clean(g.1),
        enc_names(g.1, pairs, pay).1.len() <= u32::MAX,
    ensures
        walk(w, base, WalkLevel::Directories, ext, prefix, pos, recs) == walk(
            w,
            base,
            WalkLevel::Directories,
            ext,
            prefix,
            pos + dir_string(g.0).len() + enc_names(g.1, pairs, pay).0.len() + 2,
            recs + recs_names(ext, dir_prefix(dir_string(g.0)), g.1, pairs, pay, base),
        ),
{
    let dstr = dir_string(g.0);
    let inner = enc_names(g.1, pairs, pay);
    let whole = dstr + seq![0u8] + inner.0 + seq![0u8];
    let ld = dstr.len() as int;
    let li = inner.0.len() as int;
    lemma_at_sub(w, pos, whole, 0, ld);
    assert(whole.subrange(0, ld) =~= dstr);
    assert(w[pos + ld] == whole[ld]) by {
        assert(w.subrange(pos, pos + whole.len())[ld] == whole[ld]);
    }
    lemma_cstr(w, pos, dstr);
    assert(w.subrange(pos, pos + ld) =~= dstr);
    let dp = dir_prefix(dstr);
    let pos2 = pos + ld + 1;
    assert(walk(w, base, WalkLevel::Directories, ext, prefix, pos, recs)
        == walk(w, base, WalkLevel::Names, ext, dp, pos2, recs));
    lemma_at_sub(w, pos, whole, ld + 1, ld + 1 + li);
    assert(whole.subrange(ld + 1, ld + 1 + li) =~= inner.0);
    lemma_walk_names(w, base, ext, dp, pos2, recs, g.1, pairs, pay);
    let rn = recs_names(ext, dp, g.1, pairs, pay, base);
    let q = pos2 + li;
    assert(w[q] == whole[ld + 1 + li]) by {
        assert(w.subrange(pos, pos + whole.len())[ld + 1 + li] == whole[ld + 1 + li]);
    }
    assert(cstr_len(w, q) == 0);
    assert(w.subrange(q, q) =~= Seq::<u8>::empty());
    assert(walk(w, base, WalkLevel::Names, ext, dp, q, recs + rn)
        == walk(w, base, WalkLevel::Directories, ext, dp, q + 1, recs + rn));
    lemma_walk_irrelevant(w, base, WalkLevel::Directories, ext, dp, ext, prefix, q + 1, recs + rn);
}

proof fn lemma_walk_dirs(
    w: Seq<u8>,
    base: int,
    ext: Seq<u8>,
    prefix: Seq<u8>,
    pos: int,
    recs: Seq<Record>,
    ds: Seq<SpecDir>,
    pairs: Seq<(Seq<u8>, Seq<u8>)>,
    pay: Seq<u8>,
)
    requires
        at(w, pos, enc_dirs(ds, pairs, pay).0),
        dirs_clean(ds),
        enc_dirs(ds, pairs, pay).1.len() <= u32::MAX,
    ensures
        walk(w, base, WalkLevel::Directories, ext, prefix, pos, recs) == walk(
            w,
            base,
            WalkLevel::Directories,
            ext,
            prefix,
            pos + enc_dirs(ds, pairs, pay).0.len(),
            recs + recs_dirs(ext, ds, pairs, pay, base),
        ),
    decreases ds.len(),
{
    if ds.len() == 0 {
        assert(recs + Seq::<Record>::empty() =~= recs);
    } else {
        let ds1 = ds.drop_last();
        let prev = enc_dirs(ds1, pairs, pay);
        let whole = enc_dirs(ds, pairs, pay).0;
        let g = ds.last();
        assert(ds[ds.len() - 1] == g);
        let l0 = prev.0.len() as int;
        assert(dirs_clean(ds1)) by {
            assert forall|j: int| 0 <= j < ds1.len() implies no_nul(#[trigger] ds1[j].0) && names_clean(ds1[j].1) by {
                assert(ds1[j] == ds[j]);
            }
        }
        lemma_names_pay(g.1, pairs, prev.1);
        lemma_at_sub(w, pos, whole, 0, l0);
        assert(whole.subrange(0, l0) =~= prev.0);
        lemma_walk_dirs(w, base, ext, prefix, pos, recs, ds1, pairs, pay);
        let r1 = recs + recs_dirs(ext, ds1, pairs, pay, base);
        lemma_at_sub(w, pos, whole, l0, whole.len() as int);
        assert(whole.subrange(l0, whole.len() as int)
            =~= dir_string(g.0) + seq![0u8] + enc_names(g.1, pairs, prev.1).0 + seq![0u8]);
        lemma_walk_dir_group(w, base, ext, prefix, pos + l0, r1, g, pairs, prev.1);
        assert(r1 + recs_names(ext, dir_prefix(dir_string(g.0)), g.1, pairs, prev.1, base)
            =~= recs + recs_dirs(ext, ds, pairs, pay, base));
    }
}

/// Reading one extension group: its string, its directories, the empty
/// string that closes it.
proof fn lemma_walk_ext_group(
    w: Seq<u8>,
    base: int,
    ext: Seq<u8>,
    prefix: Seq<u8>,
    pos: int,
    recs: Seq<Record>,
    g: SpecExt,
    pairs: Seq<(Seq<u8>, Seq<u8>)>,
    pay: Seq<u8>,
)
    requires
        at(w, pos, g.0 + seq![0u8] + enc_dirs(g.1, pairs, pay).0 + seq![0u8]),
        clean(g.0),
        dirs_clean(g.1),
        enc_dirs(g.1, pairs, pay).1.len() <= u32::MAX,
    ensures
        walk(w, base, WalkLevel::Extensions, ext, prefix, pos, recs) == walk(
            w,
            base,
            WalkLevel::Extensions,
            ext,
            prefix,
            pos + g.0.len() + enc_dirs(g.1, pairs, pay).0.len() + 2,
            recs + recs_dirs(g.0, g.1, pairs, pay, base),
        ),
{
    let e = g.0;
    let inner = enc_dirs(g.1, pairs, pay);
    let whole = e + seq![0u8] + inner.0 + seq![0u8];
    let le = e.len() as int;
    let li = inner.0.len() as int;
    lemma_at_sub(w, pos, whole, 0, le);
    assert(whole.subrange(0, le) =~= e);
    assert(w[pos + le] == whole[le]) by {
        assert(w.subrange(pos, pos + whole.len())[le] == whole[le]);
    }
    lemma_cstr(w, pos, e);
    assert(w.subrange(pos, pos + le) =~= e);
    let pos2 = pos + le + 1;
    assert(walk(w, base, WalkLevel::Extensions, ext, prefix, pos, recs)
        == walk(w, base, WalkLevel::Directories, e, prefix, pos2, recs));
    lemma_at_sub(w, pos, whole, le + 1, le + 1 + li);
    assert(whole.subrange(le + 1, le + 1 + li) =~= inner.0);
    lemma_walk_dirs(w, base, e, prefix, pos2, recs, g.1, pairs, pay);
    let rd = recs_dirs(e, g.1, pairs, pay, base);
    let q = pos2 + li;
    assert(w[q] == whole[le + 1 + li]) by {
        assert(w.subrange(pos, pos + whole.len())[le + 1 + li] == whole[le + 1 + li]);
    }
    assert(cstr_len(w, q) == 0);
    assert(w.subrange(q, q) =~= Seq::<u8>::empty());
    assert(walk(w, base, WalkLevel::Directories, e, prefix, q, recs + rd)
        == walk(w, base, WalkLevel::Extensions, e, prefix, q + 1, recs + rd));
    lemma_walk_irrelevant(w, base, WalkLevel::Extensions, e, prefix, ext, prefix, q + 1, recs + rd);
}

proof fn lemma_walk_exts(
    w: Seq<u8>,
    base: int,
    ext: Seq<u8>,
    prefix: Seq<u8>,
    pos: int,
    recs: Seq<Record>,
    es: Seq<SpecExt>,
    pairs: Seq<(Seq<u8>, Seq<u8>)>,
    pay: Seq<u8>,
)
    requires
        at(w, pos, enc_exts(es, pairs, pay).0),
        exts_clean(es),
        enc_exts(es, pairs, pay).1.len() <= u32::MAX,
    ensures
        walk(w, base, WalkLevel::Extensions, ext, prefix, pos, recs) == walk(
            w,
            base,
            WalkLevel::Extensions,
            ext,
            prefix,
            pos + enc_exts(es, pairs, pay).0.len(),
            recs + recs_exts(es, pairs, pay, base),
        ),
    decreases es.len(),
{
    if es.len() == 0 {
        assert(recs + Seq::<Record>::empty() =~= recs);
    } else {
        let es1 = es.drop_last();
        let prev = enc_exts(es1, pairs, pay);
        let whole = enc_exts(es, pairs, pay).0;
        let g = es.last();
        assert(es[es.len() - 1] == g);
        let l0 = prev.0.len() as int;
        assert(exts_clean(es1)) by {
            assert forall|i: int| 0 <= i < es1.len() implies clean(#[trigger] es1[i].0) && dirs_clean(es1[i].1) by {
                assert(es1[i] == es[i]);
            }
        }
        lemma_dirs_pay(g.1, pairs, prev.1);
        lemma_at_sub(w, pos, whole, 0, l0);
        assert(whole.subrange(0, l0) =~= prev.0);
        lemma_walk_exts(w, base, ext, prefix, pos, recs, es1, pairs, pay);
        let r1 = recs + recs_exts(es1, pairs, pay, base);
        lemma_at_sub(w, pos, whole, l0, whole.len() as int);
        assert(whole.subrange(l0, whole.len() as int)
            =~= g.0 + seq![0u8] + enc_dirs(g.1, pairs, prev.1).0 + seq![0u8]);
        lemma_walk_ext_group(w, base, ext, prefix, pos + l0, r1, g, pairs, prev.1);
        assert(r1 + recs_dirs(g.0, g.1, pairs, prev.1, base) =~= recs + recs_exts(es, pairs, pay, base));
    }
}

/// The (path, payload) pairs of the files `ns` of one directory, in order.
pub open spec fn pp_names(
    ext: Seq<u8>,
    prefix: Seq<u8>,
    ns: Seq<SpecFile>,
    pairs: Seq<(Seq<u8>, Seq<u8>)>,
) -> Seq<(Seq<u8>, Seq<u8>)> {
    ns.map_values(|n: SpecFile| (logical_path(prefix, n.0, ext), pairs[n.1].1))
}

/// The (path, payload) pairs of the directory groups `ds`, in order.
pub open spec fn pp_dirs(ext: Seq<u8>, ds: Seq<SpecDir>, pairs: Seq<(Seq<u8>, Seq<u8>)>) -> Seq<(Seq<u8>, Seq<u8>)>
    decreases ds.len(),
{
    if ds.len() == 0 {
        Seq::empty()
    } else {
        pp_dirs(ext, ds.drop_last(), pairs) + pp_names(ext, dir_prefix(dir_string(ds.last().0)), ds.last().1, pairs)
    }
}

/// The (path, payload) pairs of the extension groups `es`, in order.
pub open spec fn pp_exts(es: Seq<SpecExt>, pairs: Seq<(Seq<u8>, Seq<u8>)>) -> Seq<(Seq<u8>, Seq<u8>)>
    decreases es.len(),
{
    if es.len() == 0 {
        Seq::empty()
    } else {
        pp_exts(es.drop_last(), pairs) + pp_dirs(es.last().0, es.last().1, pairs)
    }
}

proof fn lemma_payload_concat(b: Seq<u8>, r1: Seq<Record>, r2: Seq<Record>)
    ensures
        payload_pairs(b, r1 + r2) == payload_pairs(b, r1) + payload_pairs(b, r2),
        payloads_in_bounds(b, r1) && payloads_in_bounds(b, r2) ==> payloads_in_bounds(b, r1 + r2),
{
    assert(payload_pairs(b, r1 + r2) =~= payload_pairs(b, r1) + payload_pairs(b, r2));
    if payloads_in_bounds(b, r1) && payloads_in_bounds(b, r2) {
        assert forall|i: int| 0 <= i < (r1 + r2).len() implies 0 <= #[trigger] (r1 + r2)[i].1.0
            && (r1 + r2)[i].1.0 + (r1 + r2)[i].1.1 <= b.len() by {
            if i < r1.len() {
                assert((r1 + r2)[i] == r1[i]);
            } else {
                assert((r1 + r2)[i] == r2[i - r1.len()]);
            }
        }
    }
}

proof fn lemma_payload_names(
    out: Seq<u8>,
    base: int,
    ext: Seq<u8>,
    prefix: Seq<u8>,
    ns: Seq<SpecFile>,
    pairs: Seq<(Seq<u8>, Seq<u8>)>,
    pay: Seq<u8>,
)
    requires
        at(out, base, enc_names(ns, pairs, pay).1),
    ensures
        payloads_in_bounds(out, recs_names(ext, prefix, ns, pairs, pay, base)),
        payload_pairs(out, recs_names(ext, prefix, ns, pairs, pay, base)) == pp_names(ext, prefix, ns, pairs),
    decreases ns.len(),
{
    let r = recs_names(ext, prefix, ns, pairs, pay, base);
    if ns.len() == 0 {
        assert(payload_pairs(out, r) =~= pp_names(ext, prefix, ns, pairs));
    } else {
        let ns1 = ns.drop_last();
        let prev = enc_names(ns1, pairs, pay);
        let d = pairs[ns.last().1].1;
        let whole = enc_names(ns, pairs, pay).1;
        assert(whole == prev.1 + d);
        lemma_at_sub(out, base, whole, 0, prev.1.len() as int);
        assert(whole.subrange(0, prev.1.len() as int) =~= prev.1);
        lemma_payload_names(out, base, ext, prefix, ns1, pairs, pay);
        lemma_at_sub(out, base, whole, prev.1.len() as int, whole.len() as int);
        assert(whole.subrange(prev.1.len() as int, whole.len() as int) =~= d);
        let r1 = recs_names(ext, prefix, ns1, pairs, pay, base);
        let rec = (
            logical_path(prefix, ns.last().0, ext),
            (base + prev.1.len(), d.len() as int),
            (crc32_cksum(d) as int, 0, EMBEDDED_ARCHIVE as int, d.len() as int, Seq::<u8>::empty()),
        );
        assert(r == r1.push(rec));
        assert(r1.push(rec) =~= r1 + seq![rec]);
        lemma_payload_concat(out, r1, seq![rec]);
        assert(payload_pairs(out, seq![rec]) =~= seq![(rec.0, d)]);
        assert(pp_names(ext, prefix, ns, pairs) =~= pp_names(ext, prefix, ns1, pairs) + seq![(rec.0, d)]);
    }
}

proof fn lemma_payload_dirs(
    out: Seq<u8>,
    base: int,
    ext: Seq<u8>,
    ds: Seq<SpecDir>,
    pairs: Seq<(Seq<u8>, Seq<u8>)>,
    pay: Seq<u8>,
)
    requires
        at(out, base, enc_dirs(ds, pairs, pay).1),
    ensures
        payloads_in_bounds(out, recs_dirs(ext, ds, pairs, pay, base)),
        payload_pairs(out, recs_dirs(ext, ds, pairs, pay, base)) == pp_dirs(ext, ds, pairs),
    decreases ds.len(),
{
    let r = recs_dirs(ext, ds, pairs, pay, base);
    if ds.len() == 0 {
        assert(payload_pairs(out, r) =~= pp_dirs(ext, ds, pairs));
    } else {
        let ds1 = ds.drop_last();
        let prev = enc_dirs(ds1, pairs, pay);
        let g = ds.last();
        let whole = enc_dirs(ds, pairs, pay).1;
        lemma_names_pay(g.1, pairs, prev.1);
        lemma_at_sub(out, base, whole, 0, prev.1.len() as int);
        assert(whole.subrange(0, prev.1.len() as int) =~= prev.1);
        lemma_payload_dirs(out, base, ext, ds1, pairs, pay);
        lemma_payload_names(out, base, ext, dir_prefix(dir_string(g.0)), g.1, pairs, prev.1);
        lemma_payload_concat(
            out,
            recs_dirs(ext, ds1, pairs, pay, base),
            recs_names(ext, dir_prefix(dir_string(g.0)), g.1, pairs, prev.1, base),
        );
    }
}

proof fn lemma_payload_exts(
    out: Seq<u8>,
    base: int,
    es: Seq<SpecExt>,
    pairs: Seq<(Seq<u8>, Seq<u8>)>,
    pay: Seq<u8>,
)
    requires
        at(out, base, enc_exts(es, pairs, pay).1),
    ensures
        payloads_in_bounds(out, recs_exts(es, pairs, pay, base)),
        payload_pairs(out, recs_exts(es, pairs, pay, base)) == pp_exts(es, pairs),
    decreases es.len(),
{
    let r = recs_exts(es, pairs, pay, base);
    if es.len() == 0 {
        assert(payload_pairs(out, r) =~= pp_exts(es, pairs));
    } else {
        let es1 = es.drop_last();
        let prev = enc_exts(es1, pairs, pay);
        let g = es.last();
        let whole = enc_exts(es, pairs, pay).1;
        lemma_dirs_pay(g.1, pairs, prev.1);
        lemma_at_sub(out, base, whole, 0, prev.1.len() as int);
        assert(whole.subrange(0, prev.1.len() as int) =~= prev.1);
        lemma_payload_exts(out, base, es1, pairs, pay);
        lemma_payload_dirs(out, base, g.0, g.1, pairs, prev.1);
        lemma_payload_concat(out, recs_exts(es1, pairs, pay, base), recs_dirs(g.0, g.1, pairs, prev.1, base));
    }
}

/// A written archive reads back as the (path, payload) pairs of its tree.
proof fn lemma_read_written(t: Seq<SpecExt>, pairs: Seq<(Seq<u8>, Seq<u8>)>)
    requires
        fits_u32(t, pairs),
        exts_clean(t),
    ensures
        spec_read(archive_bytes(t, pairs)) == Ok::<Map<Seq<u8>, Seq<u8>>, ArchiveError>(pairs_map(pp_exts(t, pairs))),
{
    let out = archive_bytes(t, pairs);
    let tree = tree_bytes(t, pairs);
    let pay = payload_bytes(t, pairs);
    let enc = enc_exts(t, pairs, Seq::empty());
    let tl = tree.len() as u32;
    let hdr = header_bytes(tl, pay.len() as u32);
    let body = archive_body(t, pairs);
    assert(hdr.len() == 28);
    assert(out.len() >= 28 + tree.len() + pay.len());
    assert(forall|i: int| 0 <= i < 28 ==> out[i] == #[trigger] hdr[i]);
    assert(forall|i: int| 0 <= i < tree.len() ==> out[28 + i] == #[trigger] tree[i]);
    assert(forall|i: int| 0 <= i < pay.len() ==> out[28 + tree.len() + i] == #[trigger] pay[i]);
    assert(forall|i: int| 0 <= i < 4 ==> hdr[i] == #[trigger] u32_bytes(SIGNATURE)[i]);
    assert(forall|i: int| 0 <= i < 4 ==> hdr[4 + i] == #[trigger] u32_bytes(WRITE_VERSION)[i]);
    assert(forall|i: int| 0 <= i < 4 ==> hdr[8 + i] == #[trigger] u32_bytes(tl)[i]);
    lemma_u32_round_trip(SIGNATURE);
    lemma_u32_round_trip(WRITE_VERSION);
    lemma_u32_round_trip(tl);
    assert(le_u32(out, 0) == SIGNATURE);
    assert(le_u32(out, 4) == WRITE_VERSION);
    assert(le_u32(out, 8) == tl);
    let h = spec_header(out);
    assert(h.version == 2 && h.tree_length == tl);
    let limit: int = 28 + tree.len() as int;
    assert(tree_limit(out, h) == limit);
    let w = out.subrange(0, limit);
    let base: int = 28 + tl;
    let le: int = enc.0.len() as int;
    assert(at(w, 28, enc.0)) by {
        assert(w.subrange(28, 28 + le) =~= enc.0) by {
            assert forall|i: int| 0 <= i < enc.0.len() implies w.subrange(28, 28 + le)[i] == enc.0[i] by {
                assert(tree[i] == enc.0[i]);
            }
        }
    }
    lemma_walk_exts(w, base, Seq::empty(), Seq::empty(), 28, Seq::empty(), t, pairs, Seq::empty());
    let r = Seq::<Record>::empty() + recs_exts(t, pairs, Seq::empty(), base);
    let q: int = 28 + le;
    assert(w[q] == tree[enc.0.len() as int]);
    assert(cstr_len(w, q) == 0);
    assert(w.subrange(q, q) =~= Seq::<u8>::empty());
    assert(walk(w, base, WalkLevel::Extensions, Seq::empty(), Seq::empty(), q, r) == Ok::<Seq<Record>, ArchiveError>(r));
    assert(spec_index(out, h) == Ok::<Seq<Record>, ArchiveError>(r));
    assert(r =~= recs_exts(t, pairs, Seq::empty(), base));
    assert(at(out, base, enc.1)) by {
        assert(out.subrange(base, base + pay.len() as int) =~= pay) by {
            assert forall|i: int| 0 <= i < pay.len() implies out.subrange(base, base + pay.len() as int)[i] == pay[i] by {
                assert(out[28 + tree.len() + i] == pay[i]);
            }
        }
    }
    lemma_payload_exts(out, base, t, pairs, Seq::empty());
}

/// Whether every pair of `pp` is an entry of `m`.
pub open spec fn good_pp(pp: Seq<(Seq<u8>, Seq<u8>)>, m: Map<Seq<u8>, Seq<u8>>) -> bool {
    forall|i: int| 0 <= i < pp.len() ==> m.contains_key((#[trigger] pp[i]).0) && m[pp[i].0] == pp[i].1
}

/// The path under which the walk files the leaf `(i, j, k)` of `t`.
pub open spec fn leaf_path(t: Seq<SpecExt>, i: int, j: int, k: int) -> Seq<u8> {
    logical_path(dir_prefix(dir_string(t[i].1[j].0)), t[i].1[j].1[k].0, t[i].0)
}

/// Whether every leaf of `t`, under its path, is an entry of `m` with the
/// payload of the file it names.
pub open spec fn leaves_good(t: Seq<SpecExt>, pairs: Seq<(Seq<u8>, Seq<u8>)>, m: Map<Seq<u8>, Seq<u8>>) -> bool {
    forall|i: int, j: int, k: int| #[trigger] is_leaf(t, i, j, k) ==> m.contains_key(leaf_path(t, i, j, k))
        && m[leaf_path(t, i, j, k)] == pairs[t[i].1[j].1[k].1].1
}

proof fn lemma_good_concat(a: Seq<(Seq<u8>, Seq<u8>)>, b: Seq<(Seq<u8>, Seq<u8>)>, m: Map<Seq<u8>, Seq<u8>>)
    requires
        good_pp(a, m),
        good_pp(b, m),
    ensures
        good_pp(a + b, m),
{
    assert forall|i: int| 0 <= i < (a + b).len() implies m.contains_key((#[trigger] (a + b)[i]).0)
        && m[(a + b)[i].0] == (a + b)[i].1 by {
        if i < a.len() {
            assert((a + b)[i] == a[i]);
        } else {
            assert((a + b)[i] == b[i - a.len()]);
        }
    }
}

proof fn lemma_good_dirs(ext: Seq<u8>, ds: Seq<SpecDir>, pairs: Seq<(Seq<u8>, Seq<u8>)>, m: Map<Seq<u8>, Seq<u8>>)
    requires
        forall|j: int, k: int| 0 <= j < ds.len() && 0 <= k < ds[j].1.len() ==> m.contains_key(
            #[trigger] logical_path(dir_prefix(dir_string(ds[j].0)), ds[j].1[k].0, ext))
            && m[logical_path(dir_prefix(dir_string(ds[j].0)), ds[j].1[k].0, ext)] == pairs[ds[j].1[k].1].1,
    ensures
        good_pp(pp_dirs(ext, ds, pairs), m),
    decreases ds.len(),
{
    if ds.len() > 0 {
        let ds1 = ds.drop_last();
        assert forall|j: int, k: int| 0 <= j < ds1.len() && 0 <= k < ds1[j].1.len() implies m.contains_key(
            #[trigger] logical_path(dir_prefix(dir_string(ds1[j].0)), ds1[j].1[k].0, ext))
            && m[logical_path(dir_prefix(dir_string(ds1[j].0)), ds1[j].1[k].0, ext)] == pairs[ds1[j].1[k].1].1 by {
            assert(ds1[j] == ds[j]);
        }
        lemma_good_dirs(ext, ds1, pairs, m);
        let g = ds.last();
        let jl = ds.len() - 1;
        assert(ds[jl] == g);
        let pn = pp_names(ext, dir_prefix(dir_string(g.0)), g.1, pairs);
        assert forall|i: int| 0 <= i < pn.len() implies m.contains_key((#[trigger] pn[i]).0) && m[pn[i].0] == pn[i].1 by {
            assert(pn[i] == (logical_path(dir_prefix(dir_string(ds[jl].0)), ds[jl].1[i].0, ext), pairs[ds[jl].1[i].1].1));
        }
        lemma_good_concat(pp_dirs(ext, ds1, pairs), pn, m);
    }
}

proof fn lemma_good_exts(es: Seq<SpecExt>, pairs: Seq<(Seq<u8>, Seq<u8>)>, m: Map<Seq<u8>, Seq<u8>>)
    requires
        leaves_good(es, pairs, m),
    ensures
        good_pp(pp_exts(es, pairs), m),
    decreases es.len(),
{
    if es.len() > 0 {
        let es1 = es.drop_last();
        assert forall|i: int, j: int, k: int| #[trigger] is_leaf(es1, i, j, k) implies m.contains_key(leaf_path(es1, i, j, k))
            && m[leaf_path(es1, i, j, k)] == pairs[es1[i].1[j].1[k].1].1 by {
            assert(es1[i] == es[i]);
            assert(is_leaf(es, i, j, k));
        }
        lemma_good_exts(es1, pairs, m);
        let il = es.len() - 1;
        let g = es.last();
        assert(es[il] == g);
        assert forall|j: int, k: int| 0 <= j < g.1.len() && 0 <= k < g.1[j].1.len() implies m.contains_key(
            #[trigger] logical_path(dir_prefix(dir_string(g.1[j].0)), g.1[j].1[k].0, g.0))
            && m[logical_path(dir_prefix(dir_string(g.1[j].0)), g.1[j].1[k].0, g.0)] == pairs[g.1[j].1[k].1].1 by {
            assert(is_leaf(es, il, j, k));
        }
        lemma_good_dirs(g.0, g.1, pairs, m);
        lemma_good_concat(pp_exts(es1, pairs), pp_dirs(g.0, g.1, pairs), m);
    }
}

proof fn lemma_present_dirs(ext: Seq<u8>, ds: Seq<SpecDir>, pairs: Seq<(Seq<u8>, Seq<u8>)>, j: int, k: int)
    requires
        0 <= j < ds.len(),
        0 <= k < ds[j].1.len(),
    ensures
        exists|q: int| 0 <= q < pp_dirs(ext, ds, pairs).len() && (#[trigger] pp_dirs(ext, ds, pairs)[q]).0
            == logical_path(dir_prefix(dir_string(ds[j].0)), ds[j].1[k].0, ext),
    decreases ds.len(),
{
    let ds1 = ds.drop_last();
    let a = pp_dirs(ext, ds1, pairs);
    let g = ds.last();
    let b = pp_names(ext, dir_prefix(dir_string(g.0)), g.1, pairs);
    let all = pp_dirs(ext, ds, pairs);
    if j == ds.len() - 1 {
        assert(all[a.len() + k] == b[k]);
    } else {
        assert(ds1[j] == ds[j]);
        lemma_present_dirs(ext, ds1, pairs, j, k);
        let q = choose|q: int| 0 <= q < a.len() && (#[trigger] a[q]).0
            == logical_path(dir_prefix(dir_string(ds1[j].0)), ds1[j].1[k].0, ext);
        assert(all[q] == a[q]);
    }
}

proof fn lemma_present_exts(es: Seq<SpecExt>, pairs: Seq<(Seq<u8>, Seq<u8>)>, i: int, j: int, k: int)
    requires
        is_leaf(es, i, j, k),
    ensures
        exists|q: int| 0 <= q < pp_exts(es, pairs).len() && (#[trigger] pp_exts(es, pairs)[q]).0 == leaf_path(es, i, j, k),
    decreases es.len(),
{
    let es1 = es.drop_last();
    let a = pp_exts(es1, pairs);
    let g = es.last();
    let all = pp_exts(es, pairs);
    if i == es.len() - 1 {
        assert(es[i] == g);
        lemma_present_dirs(g.0, g.1, pairs, j, k);
        let b = pp_dirs(g.0, g.1, pairs);
        let q = choose|q: int| 0 <= q < b.len() && (#[trigger] b[q]).0
            == logical_path(dir_prefix(dir_string(g.1[j].0)), g.1[j].1[k].0, g.0);
        assert(all[a.len() + q] == b[q]);
    } else {
        assert(es1[i] == es[i]);
        assert(is_leaf(es1, i, j, k));
        lemma_present_exts(es1, pairs, i, j, k);
        let q = choose|q: int| 0 <= q < a.len() && (#[trigger] a[q]).0 == leaf_path(es1, i, j, k);
        assert(all[q] == a[q]);
    }
}

/// Reading back what was written gives back the files written: for a set
/// whose paths can all be stored, grouped by `t` as the writer groups them,
/// the archive encoded from `t` reads as the set itself.
pub proof fn law_round_trip(t: Seq<SpecExt>, pairs: Seq<(Seq<u8>, Seq<u8>)>)
    requires
        keys_unique(pairs),
        forall|x: int| 0 <= x < pairs.len() ==> path_ok(#[trigger] pairs[x].0),
        groups_files(t, pairs, pairs.len() as int),
        fits_u32(t, pairs),
    ensures
        spec_read(archive_bytes(t, pairs)) == Ok::<Map<Seq<u8>, Seq<u8>>, ArchiveError>(pairs_map(pairs)),
{
    let m = pairs_map(pairs);
    assert forall|i: int, j: int, k: int| #[trigger] is_leaf(t, i, j, k) implies leaf_path(t, i, j, k)
        == pairs[t[i].1[j].1[k].1].0 && m.contains_key(leaf_path(t, i, j, k))
        && m[leaf_path(t, i, j, k)] == pairs[t[i].1[j].1[k].1].1 && clean(t[i].0) && no_nul(t[i].1[j].0)
        && clean(t[i].1[j].1[k].0) by {
        let x = t[i].1[j].1[k].1;
        assert(leaf_ok(t, pairs, i, j, k));
        lemma_path_parts(pairs[x].0);
        lemma_pairs_map_index(pairs, x);
    }
    assert(exts_clean(t)) by {
        assert forall|i: int| 0 <= i < t.len() implies clean(#[trigger] t[i].0) && dirs_clean(t[i].1) by {
            assert(t[i].1.len() > 0);
            assert(t[i].1[0].1.len() > 0);
            assert(is_leaf(t, i, 0, 0));
            assert forall|j: int| 0 <= j < t[i].1.len() implies no_nul(#[trigger] t[i].1[j].0) && names_clean(t[i].1[j].1) by {
                assert(t[i].1[j].1.len() > 0);
                assert(is_leaf(t, i, j, 0));
                assert forall|k: int| 0 <= k < t[i].1[j].1.len() implies clean(#[trigger] t[i].1[j].1[k].0) by {
                    assert(is_leaf(t, i, j, k));
                }
            }
        }
    }
    lemma_read_written(t, pairs);
    lemma_good_exts(t, pairs, m);
    let pp = pp_exts(t, pairs);
    assert forall|key: Seq<u8>| pairs_map(pp).contains_key(key) <==> m.contains_key(key) by {
        lemma_pairs_map_dom(pp, key);
        lemma_pairs_map_dom(pairs, key);
        if m.contains_key(key) {
            let x = choose|x: int| 0 <= x < pairs.len() && #[trigger] pairs[x].0 == key;
            assert(filed(t, x));
            let (i, j, k) = choose|i: int, j: int, k: int| #[trigger] is_leaf(t, i, j, k) && t[i].1[j].1[k].1 == x;
            lemma_present_exts(t, pairs, i, j, k);
        }
        if pairs_map(pp).contains_key(key) {
            let q = choose|q: int| 0 <= q < pp.len() && #[trigger] pp[q].0 == key;
            assert(m.contains_key(pp[q].0));
        }
    }
    assert forall|key: Seq<u8>| pairs_map(pp).contains_key(key) implies pairs_map(pp)[key] == m[key] by {
        lemma_pairs_map_value(pp, key);
        let q = choose|q: int| 0 <= q < pp.len() && #[trigger] pp[q].0 == key && pairs_map(pp)[key] == pp[q].1;
        assert(m.contains_key(pp[q].0) && m[pp[q].0] == pp[q].1);
    }
    assert(pairs_map(pp) =~= m);
}

} // verus!
