//! Reading an archive: the header, the index tree, and the file payloads.
use vstd::prelude::*;
use crate::bytes::{copy_bytes, le_u16, le_u32, push_range, range_to_vec, read_u16, read_u32};
use crate::fileset::{pairs_map, FileSet};

verus! {

/// Length of the fixed header at the start of every archive.
pub const HEADER_LENGTH: usize = 28;

/// The magic number that opens every archive.
pub const SIGNATURE: u32 = 0x55aa1234;

/// Archive index that marks a payload stored in the archive itself.
pub const EMBEDDED_ARCHIVE: u16 = 0x7fff;

/// The value that closes every index record.
pub const RECORD_TERMINATOR: u16 = 0xffff;

/// Length of the fixed part of an index record.
pub const RECORD_LENGTH: usize = 18;

/// Why an archive could not be read or written.
#[derive(PartialEq, Eq, Structural, Debug, Clone, Copy)]
pub enum ArchiveError {
    /// The buffer does not open with the archive signature.
    InvalidSignature,
    /// The index tree is malformed, or points outside the buffer.
    IndexCorrupt,
    /// The override set holds no `.vmap_c` file.
    NoMapFile,
    /// A path cannot be split into directory, name and extension.
    InvalidPath,
    /// A length does not fit the format's 32-bit fields.
    TooLarge,
}

/// The fixed header of an archive.
#[derive(PartialEq, Eq, Structural, Debug, Clone, Copy)]
pub struct VPKHeader {
    pub signature: u32,
    pub version: u32,
    pub tree_length: u32,
    pub embed_chunk_length: u32,
    pub chunk_hashes_length: u32,
    pub self_hashes_length: u32,
    pub signature_length: u32,
}

/// The index record of one file.
pub struct VPKMetadata {
    pub preload: Vec<u8>,
    pub crc32: u32,
    pub preload_length: u16,
    pub archive_index: u16,
    /// Where the payload starts; relative to the payload section until
    /// `validate` makes it absolute.
    pub archive_offset: u64,
    pub file_length: u32,
    pub suffix: u16,
}

/// A logical path with its index record.
pub struct IndexEntry {
    pub path: Vec<u8>,
    pub meta: VPKMetadata,
}

/// Which string the index walk reads next.
#[derive(PartialEq, Eq, Structural, Debug, Clone, Copy)]
pub enum WalkLevel {
    Extensions,
    Directories,
    Names,
}

/// The fields of an index record: CRC, preload length, archive index, file
/// length, preload bytes.
pub type RecordFields = (int, int, int, int, Seq<u8>);

/// A record as the walk yields it: a path, the absolute start of its payload
/// and the number of bytes to load there, and the record's fields.
pub type Record = (Seq<u8>, (int, int), RecordFields);

/// The header that the first 28 bytes of `b` encode.
pub open spec fn spec_header(b: Seq<u8>) -> VPKHeader {
    VPKHeader {
        signature: le_u32(b, 0) as u32,
        version: le_u32(b, 4) as u32,
        tree_length: le_u32(b, 8) as u32,
        embed_chunk_length: le_u32(b, 12) as u32,
        chunk_hashes_length: le_u32(b, 16) as u32,
        self_hashes_length: le_u32(b, 20) as u32,
        signature_length: le_u32(b, 24) as u32,
    }
}

/// Whether `b` opens with a whole header that carries the signature.
pub open spec fn header_ok(b: Seq<u8>) -> bool {
    b.len() >= HEADER_LENGTH && le_u32(b, 0) == SIGNATURE
}

/// Number of bytes before the first zero byte at or after `pos`, or before
/// the end of `t` when there is none.
pub open spec fn cstr_len(t: Seq<u8>, pos: int) -> nat
    decreases t.len() - pos,
{
    if 0 <= pos < t.len() && t[pos] != 0 {
        1 + cstr_len(t, pos + 1)
    } else {
        0
    }
}

/// The prefix that a directory string gives to the paths under it: a lone
/// space stands for the archive root.
pub open spec fn dir_prefix(d: Seq<u8>) -> Seq<u8> {
    if d == seq![32u8] {
        Seq::empty()
    } else {
        d + seq![47u8]
    }
}

/// The logical path of a file: directory prefix, name, then a dot and the
/// extension unless the extension is empty.
pub open spec fn logical_path(prefix: Seq<u8>, name: Seq<u8>, ext: Seq<u8>) -> Seq<u8> {
    if ext.len() == 0 {
        prefix + name
    } else {
        prefix + name + seq![46u8] + ext
    }
}

/// Walks the index tree `t` from `pos`, at nesting level `lvl`, under the
/// current extension and directory prefix, after `recs` were read. Every read
/// must end inside `t`. `base` is added to the offset of each embedded payload.
pub open spec fn walk(
    t: Seq<u8>,
    base: int,
    lvl: WalkLevel,
    ext: Seq<u8>,
    prefix: Seq<u8>,
    pos: int,
    recs: Seq<Record>,
) -> Result<Seq<Record>, ArchiveError>
    decreases t.len() - pos,
{
    let end = pos + cstr_len(t, pos);
    if end >= t.len() {
        Err(ArchiveError::IndexCorrupt)
    } else {
        let s = t.subrange(pos, end);
        let next = end + 1;
        match lvl {
            WalkLevel::Extensions => {
                if s.len() == 0 {
                    Ok(recs)
                } else {
                    walk(t, base, WalkLevel::Directories, s, prefix, next, recs)
                }
            },
            WalkLevel::Directories => {
                if s.len() == 0 {
                    walk(t, base, WalkLevel::Extensions, ext, prefix, next, recs)
                } else {
                    walk(t, base, WalkLevel::Names, ext, dir_prefix(s), next, recs)
                }
            },
            WalkLevel::Names => {
                if s.len() == 0 {
                    walk(t, base, WalkLevel::Directories, ext, prefix, next, recs)
                } else if next + RECORD_LENGTH > t.len() {
                    Err(ArchiveError::IndexCorrupt)
                } else {
                    let plen = le_u16(t, next + 4);
                    let after = next + RECORD_LENGTH + plen;
                    if after > t.len() || le_u16(t, next + 16) != RECORD_TERMINATOR {
                        Err(ArchiveError::IndexCorrupt)
                    } else {
                        let off = le_u32(t, next + 8);
                        let start = if le_u16(t, next + 6) == EMBEDDED_ARCHIVE {
                            off + base
                        } else {
                            off
                        };
                        let fields = (
                            le_u32(t, next),
                            plen,
                            le_u16(t, next + 6),
                            le_u32(t, next + 12),
                            t.subrange(next + RECORD_LENGTH, after),
                        );
                        let rec = (logical_path(prefix, s, ext), (start, le_u32(t, next + 12) + plen), fields);
                        walk(t, base, WalkLevel::Names, ext, prefix, after, recs.push(rec))
                    }
                }
            },
        }
    }
}

/// An index record whose terminator is not 0xFFFF makes the index corrupt:
/// once the walk reads a file name followed by such a record, it fails with
/// `IndexCorrupt`, whatever it has read before.
pub proof fn law_bad_terminator(
    t: Seq<u8>,
    base: int,
    ext: Seq<u8>,
    prefix: Seq<u8>,
    pos: int,
    recs: Seq<Record>,
)
    requires
        0 <= pos,
        cstr_len(t, pos) > 0,
        pos + cstr_len(t, pos) + 1 + RECORD_LENGTH <= t.len(),
        le_u16(t, pos + cstr_len(t, pos) + 17) != RECORD_TERMINATOR,
    ensures
        walk(t, base, WalkLevel::Names, ext, prefix, pos, recs) == Err::<Seq<Record>, ArchiveError>(
            ArchiveError::IndexCorrupt,
        ),
{
    assert(t.subrange(pos, pos + cstr_len(t, pos)).len() > 0);
}

/// The bytes that the index walk may read: all of `b` for version 0, else no
/// further than the end of the declared tree.
pub open spec fn tree_limit(b: Seq<u8>, h: VPKHeader) -> int {
    if h.version > 0 && HEADER_LENGTH + h.tree_length < b.len() {
        HEADER_LENGTH + h.tree_length
    } else {
        b.len() as int
    }
}

/// The records of the index of archive `b`, whose header is `h`.
pub open spec fn spec_index(b: Seq<u8>, h: VPKHeader) -> Result<Seq<Record>, ArchiveError> {
    walk(
        b.subrange(0, tree_limit(b, h)),
        HEADER_LENGTH + h.tree_length,
        WalkLevel::Extensions,
        Seq::empty(),
        Seq::empty(),
        HEADER_LENGTH as int,
        Seq::empty(),
    )
}

/// Whether every record's payload lies inside `b`.
pub open spec fn payloads_in_bounds(b: Seq<u8>, recs: Seq<Record>) -> bool {
    forall|i: int| 0 <= i < recs.len() ==> 0 <= #[trigger] recs[i].1.0 && recs[i].1.0 + recs[i].1.1 <= b.len()
}

/// Each record's path with the payload bytes it points at.
pub open spec fn payload_pairs(b: Seq<u8>, recs: Seq<Record>) -> Seq<(Seq<u8>, Seq<u8>)> {
    recs.map_values(|r: Record| (r.0, b.subrange(r.1.0, r.1.0 + r.1.1)))
}

/// The file set that archive `b` holds, or why it cannot be read.
pub open spec fn spec_read(b: Seq<u8>) -> Result<Map<Seq<u8>, Seq<u8>>, ArchiveError> {
    if !header_ok(b) {
        Err(ArchiveError::InvalidSignature)
    } else {
        match spec_index(b, spec_header(b)) {
            Err(e) => Err(e),
            Ok(recs) => {
                if payloads_in_bounds(b, recs) {
                    Ok(pairs_map(payload_pairs(b, recs)))
                } else {
                    Err(ArchiveError::IndexCorrupt)
                }
            },
        }
    }
}

/// The records that an index holds, in order.
pub open spec fn index_records(v: Seq<IndexEntry>) -> Seq<Record> {
    v.map_values(
        |e: IndexEntry|
            (
                e.path@,
                (e.meta.archive_offset as int, e.meta.file_length + e.meta.preload_length),
                (
                    e.meta.crc32 as int,
                    e.meta.preload_length as int,
                    e.meta.archive_index as int,
                    e.meta.file_length as int,
                    e.meta.preload@,
                ),
            ),
    )
}

impl VPKHeader {
    /// The header whose seven fields are the first seven integers of
    /// `header_data`; fails unless the first is the signature.
    pub fn new(header_data: Vec<u32>) -> (r: Result<VPKHeader, ArchiveError>)
        requires
            header_data@.len() >= 7,
        ensures
            header_data@[0] != SIGNATURE <==> r is Err,
            r matches Err(e) ==> e == ArchiveError::InvalidSignature,
            r matches Ok(h) ==> h == (VPKHeader {
                signature: header_data@[0],
                version: header_data@[1],
                tree_length: header_data@[2],
                embed_chunk_length: header_data@[3],
                chunk_hashes_length: header_data@[4],
                self_hashes_length: header_data@[5],
                signature_length: header_data@[6],
            }),
    {
        let signature = header_data[0];
        if signature != SIGNATURE {
            return Err(ArchiveError::InvalidSignature);
        }
        Ok(VPKHeader {
            signature,
            version: header_data[1],
            tree_length: header_data[2],
            embed_chunk_length: header_data[3],
            chunk_hashes_length: header_data[4],
            self_hashes_length: header_data[5],
            signature_length: header_data[6],
        })
    }
}

impl VPKMetadata {
    /// Checks the record's terminator and makes an embedded payload's offset
    /// absolute: the payload section starts after the header and the tree.
    pub fn validate(&mut self, header: &VPKHeader) -> (r: Result<(), ArchiveError>)
        requires
            old(self).archive_offset <= u32::MAX,
        ensures
            r is Ok <==> old(self).suffix == RECORD_TERMINATOR,
            r matches Err(e) ==> e == ArchiveError::IndexCorrupt,
            final(self).archive_offset == if r is Ok && old(self).archive_index == EMBEDDED_ARCHIVE {
                old(self).archive_offset + HEADER_LENGTH + header.tree_length
            } else {
                old(self).archive_offset as int
            },
            final(self).preload == old(self).preload,
            final(self).crc32 == old(self).crc32,
            final(self).preload_length == old(self).preload_length,
            final(self).archive_index == old(self).archive_index,
            final(self).file_length == old(self).file_length,
            final(self).suffix == old(self).suffix,
    {
        if self.suffix != RECORD_TERMINATOR {
            return Err(ArchiveError::IndexCorrupt);
        }
        if self.archive_index == EMBEDDED_ARCHIVE {
            self.archive_offset = self.archive_offset + HEADER_LENGTH as u64 + header.tree_length as u64;
        }
        Ok(())
    }
}

/// Where the zero byte that ends the string at `pos` stands in `b[..limit]`,
/// or `limit` when there is none.
fn find_nul(b: &[u8], pos: usize, limit: usize) -> (r: usize)
    requires
        pos <= limit <= b@.len(),
    ensures
        r == pos + cstr_len(b@.subrange(0, limit as int), pos as int),
        r <= limit,
{
    let ghost t = b@.subrange(0, limit as int);
    let mut i: usize = pos;
    while i < limit && b[i] != 0
        invariant
            pos <= i <= limit <= b@.len(),
            t == b@.subrange(0, limit as int),
            pos + cstr_len(t, pos as int) == i + cstr_len(t, i as int),
        decreases limit - i,
    {
        assert(t[i as int] == b@[i as int]);
        i = i + 1;
    }
    proof {
        if i < limit {
            assert(t[i as int] == b@[i as int]);
        }
    }
    i
}

/// Inside the first `limit` bytes, the integers read from a prefix of `b` are
/// those read from `b`.
proof fn lemma_prefix_ints(b: Seq<u8>, limit: int, p: int)
    requires
        0 <= p,
        p + 4 <= limit <= b.len(),
    ensures
        le_u16(b.subrange(0, limit), p) == le_u16(b, p),
        le_u32(b.subrange(0, limit), p) == le_u32(b, p),
{
    let t = b.subrange(0, limit);
    assert(t[p] == b[p] && t[p + 1] == b[p + 1] && t[p + 2] == b[p + 2] && t[p + 3] == b[p + 3]);
}

/// The path prefix for directory string `d`.
fn make_prefix(d: Vec<u8>) -> (r: Vec<u8>)
    ensures
        r@ == dir_prefix(d@),
{
    if d.len() == 1 && d[0] == 32 {
        assert(d@ =~= seq![32u8]);
        Vec::new()
    } else {
        let mut d = d;
        let ghost d0 = d@;
        d.push(47);
        assert(d@ =~= d0 + seq![47u8]);
        proof {
            if d0 == seq![32u8] {
                assert(d0.len() == 1 && d0[0] == 32);
            }
        }
        d
    }
}

/// The logical path of the file whose name is `b[from..to]`.
fn make_path(prefix: &Vec<u8>, b: &[u8], from: usize, to: usize, ext: &Vec<u8>) -> (r: Vec<u8>)
    requires
        from <= to <= b@.len(),
    ensures
        r@ == logical_path(prefix@, b@.subrange(from as int, to as int), ext@),
{
    let mut r: Vec<u8> = Vec::new();
    push_range(&mut r, prefix.as_slice(), 0, prefix.len());
    push_range(&mut r, b, from, to);
    if ext.len() > 0 {
        r.push(46);
        push_range(&mut r, ext.as_slice(), 0, ext.len());
    }
    assert(prefix@.subrange(0, prefix@.len() as int) =~= prefix@);
    assert(ext@.subrange(0, ext@.len() as int) =~= ext@);
    assert(r@ =~= logical_path(prefix@, b@.subrange(from as int, to as int), ext@));
    r
}

/// An archive being read: its bytes and what has been parsed from them.
pub struct VPK {
    pub data: Vec<u8>,
    pub header: Option<VPKHeader>,
    pub index: Vec<IndexEntry>,
    pub files: FileSet,
}

impl VPK {
    /// An archive over `data`, with nothing parsed yet.
    pub fn new(data: Vec<u8>) -> (r: VPK)
        ensures
            r.data@ == data@,
            r.header is None,
            r.index@.len() == 0,
            r.files.wf(),
            r.files@ == Map::<Seq<u8>, Seq<u8>>::empty(),
    {
        VPK { data, header: None, index: Vec::new(), files: FileSet::new() }
    }

    /// Parses the archive: header, index, then payloads.
    pub fn read(&mut self) -> (r: Result<(), ArchiveError>)
        requires
            old(self).index@.len() == 0,
            old(self).files.wf(),
            old(self).files@ == Map::<Seq<u8>, Seq<u8>>::empty(),
        ensures
            final(self).data@ == old(self).data@,
            final(self).files.wf(),
            r is Err ==> final(self).files == old(self).files,
            r is Ok <==> spec_read(old(self).data@) is Ok,
            r matches Err(e) ==> spec_read(old(self).data@) == Err::<Map<Seq<u8>, Seq<u8>>, ArchiveError>(e),
            r is Ok ==> spec_read(old(self).data@) == Ok::<Map<Seq<u8>, Seq<u8>>, ArchiveError>(final(self).files@),
    {
        let ghost b = self.data@;
        match self.read_header() {
            Ok(()) => {},
            Err(e) => {
                return Err(e);
            },
        }
        let ghost h = spec_header(b);
        match self.populate_index() {
            Ok(()) => {},
            Err(e) => {
                return Err(e);
            },
        }
        let ghost recs = index_records(self.index@);
        proof {
            assert(recs =~= recs.subrange(0, self.index@.len() as int));
            assert(spec_index(b, h) == Ok::<Seq<Record>, ArchiveError>(recs));
        }
        let r = self.load_file_data();
        proof {
            if r is Ok {
                assert(self.files@ =~= pairs_map(payload_pairs(b, recs)));
            }
        }
        r
    }

    /// Parses the fixed header.
    pub fn read_header(&mut self) -> (r: Result<(), ArchiveError>)
        ensures
            final(self).data == old(self).data,
            final(self).index == old(self).index,
            final(self).files == old(self).files,
            r is Ok <==> header_ok(old(self).data@),
            r matches Err(e) ==> e == ArchiveError::InvalidSignature && final(self).header == old(self).header,
            r is Ok ==> final(self).header == Some(spec_header(old(self).data@)),
    {
        if self.data.len() < HEADER_LENGTH {
            return Err(ArchiveError::InvalidSignature);
        }
        let ghost b = self.data@;
        let mut header_data: Vec<u32> = Vec::new();
        let mut i: usize = 0;
        while i < 7
            invariant
                self.data@ == b,
                b.len() >= HEADER_LENGTH,
                i <= 7,
                header_data@.len() == i,
                forall|j: int| 0 <= j < i ==> header_data@[j] == le_u32(b, 4 * j),
            decreases 7 - i,
        {
            header_data.push(read_u32(self.data.as_slice(), 4 * i));
            i = i + 1;
        }
        match VPKHeader::new(header_data) {
            Ok(h) => {
                self.header = Some(h);
                Ok(())
            },
            Err(e) => Err(e),
        }
    }

    /// Walks the index tree and appends a record for every file it names.
    pub fn populate_index(&mut self) -> (r: Result<(), ArchiveError>)
        requires
            old(self).header is Some,
        ensures
            final(self).data == old(self).data,
            final(self).header == old(self).header,
            final(self).files == old(self).files,
            r is Ok <==> spec_index(old(self).data@, old(self).header->Some_0) is Ok,
            r matches Err(e) ==> final(self).index@ == old(self).index@
                && spec_index(old(self).data@, old(self).header->Some_0) == Err::<Seq<Record>, ArchiveError>(e),
            r is Ok ==> spec_index(old(self).data@, old(self).header->Some_0) == Ok::<Seq<Record>, ArchiveError>(
                index_records(final(self).index@).subrange(old(self).index@.len() as int, final(self).index@.len() as int)),
            r is Ok ==> index_records(final(self).index@).subrange(0, old(self).index@.len() as int) == index_records(old(self).index@),
            r is Ok ==> forall|i: int| old(self).index@.len() <= i < final(self).index@.len()
                ==> (#[trigger] final(self).index@[i]).meta.suffix == RECORD_TERMINATOR,
    {
        let h = self.header.unwrap();
        let ghost b = self.data@;
        let dlen = self.data.len();
        let tl = h.tree_length as usize;
        let limit: usize = if h.version > 0 && tl < dlen && HEADER_LENGTH < dlen - tl {
            HEADER_LENGTH + tl
        } else {
            dlen
        };
        let ghost t = b.subrange(0, limit as int);
        assert(limit == tree_limit(b, h));
        let base: u64 = HEADER_LENGTH as u64 + h.tree_length as u64;
        if limit <= HEADER_LENGTH {
            return Err(ArchiveError::IndexCorrupt);
        }
        let mut lvl = WalkLevel::Extensions;
        let mut ext: Vec<u8> = Vec::new();
        let mut prefix: Vec<u8> = Vec::new();
        let mut pos: usize = HEADER_LENGTH;
        let mut idx: Vec<IndexEntry> = Vec::new();
        assert(index_records(idx@) =~= Seq::<Record>::empty());
        loop
            invariant
                *self == *old(self),
                self.data@ == b,
                h == old(self).header->Some_0,
                limit <= b.len(),
                HEADER_LENGTH <= pos <= limit,
                t == b.subrange(0, limit as int),
                base == HEADER_LENGTH + h.tree_length,
                walk(t, base as int, lvl, ext@, prefix@, pos as int, index_records(idx@)) == spec_index(b, h),
                forall|i: int| 0 <= i < idx@.len() ==> (#[trigger] idx@[i]).meta.suffix == RECORD_TERMINATOR,
            decreases limit - pos,
        {
            let end = find_nul(self.data.as_slice(), pos, limit);
            if end >= limit {
                return Err(ArchiveError::IndexCorrupt);
            }
            let next = end + 1;
            assert(t.subrange(pos as int, end as int) =~= b.subrange(pos as int, end as int));
            match lvl {
                WalkLevel::Extensions => {
                    if end == pos {
                        let ghost old_index = self.index@;
                        let ghost found = idx@;
                        self.index.append(&mut idx);
                        proof {
                            assert(self.index@ =~= old_index + found);
                            assert(index_records(self.index@).subrange(old_index.len() as int, self.index@.len() as int)
                                =~= index_records(found));
                            assert(index_records(self.index@).subrange(0, old_index.len() as int) =~= index_records(old_index));
                            assert forall|i: int| old_index.len() <= i < self.index@.len()
                                implies (#[trigger] self.index@[i]).meta.suffix == RECORD_TERMINATOR by {
                                assert(self.index@[i] == found[i - old_index.len()]);
                            }
                        }
                        return Ok(());
                    }
                    ext = range_to_vec(self.data.as_slice(), pos, end);
                    lvl = WalkLevel::Directories;
                    pos = next;
                },
                WalkLevel::Directories => {
                    if end == pos {
                        lvl = WalkLevel::Extensions;
                    } else {
                        let d = range_to_vec(self.data.as_slice(), pos, end);
                        prefix = make_prefix(d);
                        lvl = WalkLevel::Names;
                    }
                    pos = next;
                },
                WalkLevel::Names => {
                    if end == pos {
                        lvl = WalkLevel::Directories;
                        pos = next;
                    } else {
                        if limit - next < RECORD_LENGTH {
                            return Err(ArchiveError::IndexCorrupt);
                        }
                        let fixed = next + RECORD_LENGTH;
                        proof {
                            lemma_prefix_ints(b, limit as int, next as int);
                            lemma_prefix_ints(b, limit as int, next + 4);
                            lemma_prefix_ints(b, limit as int, next + 8);
                            lemma_prefix_ints(b, limit as int, next + 12);
                            lemma_prefix_ints(b, limit as int, next + 14);
                        }
                        let plen = read_u16(self.data.as_slice(), next + 4);
                        if limit - fixed < plen as usize {
                            return Err(ArchiveError::IndexCorrupt);
                        }
                        let after = fixed + plen as usize;
                        let mut meta = VPKMetadata {
                            preload: range_to_vec(self.data.as_slice(), fixed, after),
                            crc32: read_u32(self.data.as_slice(), next),
                            preload_length: plen,
                            archive_index: read_u16(self.data.as_slice(), next + 6),
                            archive_offset: read_u32(self.data.as_slice(), next + 8) as u64,
                            file_length: read_u32(self.data.as_slice(), next + 12),
                            suffix: read_u16(self.data.as_slice(), next + 16),
                        };
                        match meta.validate(&h) {
                            Ok(()) => {},
                            Err(e) => {
                                return Err(e);
                            },
                        }
                        assert(meta.preload@ =~= t.subrange(fixed as int, after as int));
                        let path = make_path(&prefix, self.data.as_slice(), pos, end, &ext);
                        let ghost recs = index_records(idx@);
                        idx.push(IndexEntry { path, meta });
                        assert(index_records(idx@) =~= recs.push(index_records(idx@).last()));
                        pos = after;
                    }
                },
            }
        }
    }

    /// Copies each indexed payload out of the archive into `files`. On an
    /// error `files` is left as it was.
    pub fn load_file_data(&mut self) -> (r: Result<(), ArchiveError>)
        requires
            old(self).files.wf(),
        ensures
            final(self).data == old(self).data,
            final(self).header == old(self).header,
            final(self).index == old(self).index,
            final(self).files.wf(),
            r is Ok <==> payloads_in_bounds(old(self).data@, index_records(old(self).index@)),
            r matches Err(e) ==> e == ArchiveError::IndexCorrupt && final(self).files == old(self).files,
            r is Ok ==> final(self).files@ == old(self).files@.union_prefer_right(
                pairs_map(payload_pairs(old(self).data@, index_records(old(self).index@)))),
    {
        let ghost b = self.data@;
        let ghost recs = index_records(self.index@);
        let n = self.index.len();
        let dlen = self.data.len();
        let mut loaded = FileSet::new();
        let mut i: usize = 0;
        assert(payload_pairs(b, recs.subrange(0, 0)) =~= Seq::<(Seq<u8>, Seq<u8>)>::empty());
        while i < n
            invariant
                *self == *old(self),
                b == self.data@,
                recs == index_records(self.index@),
                n == self.index@.len(),
                dlen == b.len(),
                i <= n,
                self.files.wf(),
                loaded.wf(),
                payloads_in_bounds(b, recs.subrange(0, i as int)),
                loaded@ == pairs_map(payload_pairs(b, recs.subrange(0, i as int))),
            decreases n - i,
        {
            let start = self.index[i].meta.archive_offset;
            let len = self.index[i].meta.file_length as u64 + self.index[i].meta.preload_length as u64;
            assert(recs[i as int].0 == self.index@[i as int].path@);
            assert(recs[i as int].1 == (start as int, len as int));
            if start > dlen as u64 || len > dlen as u64 - start {
                assert(recs[i as int].1.0 + recs[i as int].1.1 > b.len());
                return Err(ArchiveError::IndexCorrupt);
            }
            let from = start as usize;
            let to = from + len as usize;
            let data = range_to_vec(self.data.as_slice(), from, to);
            let path = copy_bytes(&self.index[i].path);
            let ghost pre = payload_pairs(b, recs.subrange(0, i as int));
            loaded.insert(path, data);
            proof {
                let upto = payload_pairs(b, recs.subrange(0, i + 1));
                assert(upto =~= pre.push((recs[i as int].0, b.subrange(start as int, start + len))));
                assert(upto.drop_last() =~= pre);
                assert(upto.last() == (recs[i as int].0, b.subrange(start as int, start + len)));
                assert(pairs_map(upto) == pairs_map(pre).insert(recs[i as int].0, b.subrange(start as int, start + len)));
                assert forall|j: int| 0 <= j < i + 1 implies 0 <= #[trigger] recs.subrange(0, i + 1)[j].1.0
                    && recs.subrange(0, i + 1)[j].1.0 + recs.subrange(0, i + 1)[j].1.1 <= b.len() by {
                    if j < i {
                        assert(recs.subrange(0, i + 1)[j] == recs.subrange(0, i as int)[j]);
                    }
                }
            }
            i = i + 1;
        }
        assert(recs.subrange(0, n as int) =~= recs);
        self.files.extend_from(&loaded);
        Ok(())
    }
}

/// Reads the file set that archive `data` holds.
pub fn read_archive(data: Vec<u8>) -> (r: Result<FileSet, ArchiveError>)
    ensures
        r matches Ok(fs) ==> fs.wf() && spec_read(data@) == Ok::<Map<Seq<u8>, Seq<u8>>, ArchiveError>(fs@),
        r matches Err(e) ==> spec_read(data@) == Err::<Map<Seq<u8>, Seq<u8>>, ArchiveError>(e),
{
    let mut vpk = VPK::new(data);
    match vpk.read() {
        Ok(()) => Ok(vpk.files),
        Err(e) => Err(e),
    }
}

} // verus!
