use dota_terrain_mod::fileset::FileSet;
use dota_terrain_mod::patch::patch_vpk;
use dota_terrain_mod::terrain::{create_terrain, patch_and_create};
use dota_terrain_mod::utils::{get_base_path, get_out_path, get_target_path, Dota};
use dota_terrain_mod::vpk::{read_archive, ArchiveError, VPKHeader, VPKMetadata, VPK};
use dota_terrain_mod::writer::{build_tree, create_vpk, split_path};

fn set_of(items: &[(&str, &[u8])]) -> FileSet {
    let mut fs = FileSet::new();
    for (p, d) in items {
        fs.insert(p.as_bytes().to_vec(), d.to_vec());
    }
    fs
}

fn get<'a>(fs: &'a FileSet, p: &str) -> Option<&'a Vec<u8>> {
    fs.get(p.as_bytes())
}

fn le32(b: &[u8], at: usize) -> u32 {
    u32::from_le_bytes([b[at], b[at + 1], b[at + 2], b[at + 3]])
}

/// An archive of version 2 with one file `d/n.e`, payload `data`, written by hand.
fn hand_archive(terminator: u16, data: &[u8]) -> Vec<u8> {
    let mut tree: Vec<u8> = Vec::new();
    tree.extend_from_slice(b"e\0d\0n\0");
    tree.extend_from_slice(&0u32.to_le_bytes());
    tree.extend_from_slice(&0u16.to_le_bytes());
    tree.extend_from_slice(&0x7fffu16.to_le_bytes());
    tree.extend_from_slice(&0u32.to_le_bytes());
    tree.extend_from_slice(&(data.len() as u32).to_le_bytes());
    tree.extend_from_slice(&terminator.to_le_bytes());
    tree.extend_from_slice(b"\0\0\0");
    let mut out: Vec<u8> = Vec::new();
    for v in [0x55aa1234u32, 2, tree.len() as u32, data.len() as u32, 0, 0, 0] {
        out.extend_from_slice(&v.to_le_bytes());
    }
    out.extend_from_slice(&tree);
    out.extend_from_slice(data);
    out
}

#[test]
fn merge_scenario_replaces_base_map() {
    let base = set_of(&[("maps/dota.vmap_c", b"BASE"), ("maps/extra.vpk_c", b"X")]);
    let target = set_of(&[("maps/custom.vmap_c", b"OVERRIDE")]);
    let merged = patch_vpk(base, target).unwrap();
    assert_eq!(merged.len(), 2);
    assert_eq!(get(&merged, "maps/dota.vmap_c").unwrap(), &b"OVERRIDE".to_vec());
    assert_eq!(get(&merged, "maps/extra.vpk_c").unwrap(), &b"X".to_vec());
    assert!(get(&merged, "maps/custom.vmap_c").is_none());
}

#[test]
fn merge_override_takes_precedence() {
    let base = set_of(&[("maps/dota.vmap_c", b"old")]);
    let target = set_of(&[("maps/foo.vmap_c", b"new")]);
    let merged = patch_vpk(base, target).unwrap();
    assert_eq!(get(&merged, "maps/dota.vmap_c").unwrap(), &b"new".to_vec());
    assert_eq!(merged.len(), 1);
}

#[test]
fn merge_keeps_all_disjoint_paths() {
    let base = set_of(&[("a/x.txt", b"1"), ("b/y.bin", b"2"), ("c.dat", b"3")]);
    let target = set_of(&[("maps/t.vmap_c", b"M"), ("a/z.txt", b"4")]);
    let merged = patch_vpk(base, target).unwrap();
    assert_eq!(merged.len(), 5);
    for p in ["a/x.txt", "b/y.bin", "c.dat", "maps/dota.vmap_c", "a/z.txt"] {
        assert!(merged.contains_key(p.as_bytes()), "{}", p);
    }
    assert_eq!(get(&merged, "c.dat").unwrap(), &b"3".to_vec());
}

#[test]
fn merge_target_file_shadows_base_file() {
    let base = set_of(&[("a/x.txt", b"base")]);
    let target = set_of(&[("m.vmap_c", b"M"), ("a/x.txt", b"target")]);
    let merged = patch_vpk(base, target).unwrap();
    assert_eq!(get(&merged, "a/x.txt").unwrap(), &b"target".to_vec());
    assert_eq!(get(&merged, "dota.vmap_c").unwrap(), &b"M".to_vec());
}

#[test]
fn merge_without_map_file_fails() {
    let base = set_of(&[("a/x.txt", b"1")]);
    let target = set_of(&[("a/y.vmap", b"2")]);
    assert!(matches!(patch_vpk(base, target), Err(ArchiveError::NoMapFile)));
}

#[test]
fn round_trip_preserves_files() {
    let files = set_of(&[
        ("maps/dota.vmap_c", b"map bytes"),
        ("maps/extra.vpk_c", b"X"),
        ("maps/sub/other.vmap_c", b""),
        ("root.txt", b"at the root"),
        ("materials/a.b.vtex_c", b"dotted stem"),
        ("maps/second.vpk_c", b"YY"),
    ]);
    let out = create_vpk(&files).unwrap();
    let back = read_archive(out).unwrap();
    assert_eq!(back.len(), files.len());
    for e in files.entries.iter() {
        assert_eq!(back.get(&e.path).unwrap(), &e.data);
    }
}

#[test]
fn round_trip_of_empty_set() {
    let files = FileSet::new();
    let out = create_vpk(&files).unwrap();
    assert_eq!(out.len(), 28 + 1 + 48);
    let back = read_archive(out).unwrap();
    assert_eq!(back.len(), 0);
}

#[test]
fn written_header_fields() {
    let files = set_of(&[("maps/dota.vmap_c", b"BASE"), ("maps/extra.vpk_c", b"X"), ("top.txt", b"T")]);
    let out = create_vpk(&files).unwrap();
    assert_eq!(le32(&out, 0), 0x55aa1234);
    assert_eq!(le32(&out, 4), 2);
    // 1 + ("vmap_c" 6+2) + ("vpk_c" 5+2) + ("txt" 3+2)
    //   + ("maps" 4+2) * 2 + (" " 1+2)
    //   + ("dota" 4+19) + ("extra" 5+19) + ("top" 3+19)
    let expected_tree = 1 + 8 + 7 + 5 + 6 * 2 + 3 + 23 + 24 + 22;
    assert_eq!(le32(&out, 8), expected_tree);
    assert_eq!(le32(&out, 12), 6);
    assert_eq!(le32(&out, 16), 0);
    assert_eq!(le32(&out, 20), 48);
    assert_eq!(le32(&out, 24), 0);
    assert_eq!(out.len(), 28 + expected_tree as usize + 6 + 48);
}

#[test]
fn written_checksums() {
    let files = set_of(&[("d/n.e", b"123456789")]);
    let out = create_vpk(&files).unwrap();
    let tl = le32(&out, 8) as usize;
    // tree: "e\0" "d\0" "n\0" then the record
    let rec = 28 + 6;
    assert_eq!(le32(&out, rec), 0x765e7680);
    assert_eq!(u16::from_le_bytes([out[rec + 4], out[rec + 5]]), 0);
    assert_eq!(u16::from_le_bytes([out[rec + 6], out[rec + 7]]), 0x7fff);
    assert_eq!(le32(&out, rec + 8), 0);
    assert_eq!(le32(&out, rec + 12), 9);
    assert_eq!(u16::from_le_bytes([out[rec + 16], out[rec + 17]]), 0xffff);
    let tree = &out[28..28 + tl];
    let body_end = out.len() - 16;
    let tree_digest = &out[body_end - 32..body_end - 16];
    let chunk_digest = &out[body_end - 16..body_end];
    let file_digest = &out[body_end..];
    assert_eq!(tree_digest, <md5::Md5 as md5::Digest>::digest(tree).as_slice());
    assert_eq!(chunk_digest, <md5::Md5 as md5::Digest>::digest(b"").as_slice());
    assert_eq!(file_digest, <md5::Md5 as md5::Digest>::digest(&out[..body_end]).as_slice());
    assert_ne!(tree_digest, &tree[..16]);
}

#[test]
fn writer_rejects_paths_without_extension() {
    for p in ["noext", "maps/noext", "maps/.vmap_c", "maps/foo.", "/abs.txt", " /x.txt", "a\0b.txt"] {
        let files = set_of(&[(p, b"1")]);
        assert!(matches!(create_vpk(&files), Err(ArchiveError::InvalidPath)), "{:?}", p);
    }
}

#[test]
fn split_path_parts() {
    let (d, n, e) = split_path(&b"maps/sub/foo.bar.vmap_c".to_vec()).unwrap();
    assert_eq!(d, b"maps/sub".to_vec());
    assert_eq!(n, b"foo.bar".to_vec());
    assert_eq!(e, b"vmap_c".to_vec());
    let (d, n, e) = split_path(&b"x.y".to_vec()).unwrap();
    assert!(d.is_empty());
    assert_eq!(n, b"x".to_vec());
    assert_eq!(e, b"y".to_vec());
}

#[test]
fn tree_groups_by_extension_and_directory() {
    let files = set_of(&[("a/x.t", b"1"), ("b/y.t", b"2"), ("a/z.t", b"3"), ("a/w.u", b"4")]);
    let tree = build_tree(&files).unwrap();
    assert_eq!(tree.exts.len(), 2);
    assert_eq!(tree.exts[0].ext, b"t".to_vec());
    assert_eq!(tree.exts[0].dirs.len(), 2);
    assert_eq!(tree.exts[0].dirs[0].dir, b"a".to_vec());
    assert_eq!(tree.exts[0].dirs[0].files.len(), 2);
    assert_eq!(tree.exts[1].dirs.len(), 1);
}

#[test]
fn bad_terminator_is_index_corrupt() {
    let good = hand_archive(0xffff, b"PAY");
    let back = read_archive(good).unwrap();
    assert_eq!(back.get(b"d/n.e").unwrap(), &b"PAY".to_vec());
    let bad = hand_archive(0x1234, b"PAY");
    assert!(matches!(read_archive(bad), Err(ArchiveError::IndexCorrupt)));
}

#[test]
fn bad_signature_is_rejected() {
    let mut a = hand_archive(0xffff, b"PAY");
    a[0] = 0;
    assert!(matches!(read_archive(a), Err(ArchiveError::InvalidSignature)));
    assert!(matches!(read_archive(vec![0x34, 0x12, 0xaa, 0x55]), Err(ArchiveError::InvalidSignature)));
}

#[test]
fn truncated_archives_are_index_corrupt() {
    let a = hand_archive(0xffff, b"PAY");
    // payload cut short
    let cut = a[..a.len() - 1].to_vec();
    assert!(matches!(read_archive(cut), Err(ArchiveError::IndexCorrupt)));
    // tree cut short
    let cut = a[..28 + 10].to_vec();
    assert!(matches!(read_archive(cut), Err(ArchiveError::IndexCorrupt)));
}

#[test]
fn declared_tree_length_bounds_the_walk() {
    let mut a = hand_archive(0xffff, b"PAY");
    // declare a tree that ends inside the record
    a[8..12].copy_from_slice(&10u32.to_le_bytes());
    assert!(matches!(read_archive(a.clone()), Err(ArchiveError::IndexCorrupt)));
    // version 0 walks past the declared length; the payload base moves with it
    a[4..8].copy_from_slice(&0u32.to_le_bytes());
    let back = read_archive(a.clone()).unwrap();
    assert_eq!(back.get(b"d/n.e").unwrap(), &a[38..41].to_vec());
}

#[test]
fn root_directory_and_preload() {
    // a root file (directory " ") with two preload bytes
    let mut tree: Vec<u8> = Vec::new();
    tree.extend_from_slice(b"txt\0 \0r\0");
    tree.extend_from_slice(&0u32.to_le_bytes());
    tree.extend_from_slice(&2u16.to_le_bytes());
    tree.extend_from_slice(&0x7fffu16.to_le_bytes());
    tree.extend_from_slice(&1u32.to_le_bytes());
    tree.extend_from_slice(&2u32.to_le_bytes());
    tree.extend_from_slice(&0xffffu16.to_le_bytes());
    tree.extend_from_slice(b"PP");
    tree.extend_from_slice(b"\0\0\0");
    let mut a: Vec<u8> = Vec::new();
    for v in [0x55aa1234u32, 1, tree.len() as u32, 5, 0, 0, 0] {
        a.extend_from_slice(&v.to_le_bytes());
    }
    a.extend_from_slice(&tree);
    a.extend_from_slice(b"abcde");
    let back = read_archive(a).unwrap();
    // reads payload length plus preload length, from the corrected offset
    assert_eq!(back.get(b"r.txt").unwrap(), &b"bcde".to_vec());
}

#[test]
fn header_and_metadata_steps() {
    assert!(matches!(VPKHeader::new(vec![1, 2, 3, 4, 5, 6, 7]), Err(ArchiveError::InvalidSignature)));
    let h = VPKHeader::new(vec![0x55aa1234, 2, 100, 4, 5, 48, 7]).unwrap();
    assert_eq!(h.tree_length, 100);
    assert_eq!(h.self_hashes_length, 48);
    let mut m = VPKMetadata {
        preload: Vec::new(),
        crc32: 0,
        preload_length: 0,
        archive_index: 0x7fff,
        archive_offset: 10,
        file_length: 3,
        suffix: 0xffff,
    };
    assert!(m.validate(&h).is_ok());
    assert_eq!(m.archive_offset, 10 + 28 + 100);
    let mut other = VPKMetadata {
        preload: Vec::new(),
        crc32: 0,
        preload_length: 0,
        archive_index: 3,
        archive_offset: 10,
        file_length: 3,
        suffix: 0xffff,
    };
    assert!(other.validate(&h).is_ok());
    assert_eq!(other.archive_offset, 10);
    let mut bad = VPKMetadata {
        preload: Vec::new(),
        crc32: 0,
        preload_length: 0,
        archive_index: 0x7fff,
        archive_offset: 10,
        file_length: 3,
        suffix: 0x1234,
    };
    assert!(matches!(bad.validate(&h), Err(ArchiveError::IndexCorrupt)));
    assert_eq!(bad.archive_offset, 10);
}

#[test]
fn vpk_reads_step_by_step() {
    let mut v = VPK::new(hand_archive(0xffff, b"PAY"));
    assert!(v.read_header().is_ok());
    assert_eq!(v.header.unwrap().version, 2);
    assert!(v.populate_index().is_ok());
    assert_eq!(v.index.len(), 1);
    assert_eq!(v.index[0].path, b"d/n.e".to_vec());
    assert!(v.load_file_data().is_ok());
    assert_eq!(v.files.get(b"d/n.e").unwrap(), &b"PAY".to_vec());
}

#[test]
fn terrain_end_to_end() {
    let base = create_vpk(&set_of(&[("maps/dota.vmap_c", b"BASE"), ("maps/extra.vpk_c", b"X")])).unwrap();
    let target = create_vpk(&set_of(&[("maps/custom.vmap_c", b"OVERRIDE")])).unwrap();
    let out = create_terrain(base, target).unwrap();
    let back = read_archive(out).unwrap();
    assert_eq!(back.len(), 2);
    assert_eq!(back.get(b"maps/dota.vmap_c").unwrap(), &b"OVERRIDE".to_vec());
    assert_eq!(back.get(b"maps/extra.vpk_c").unwrap(), &b"X".to_vec());
}

#[test]
fn terrain_errors() {
    let base = create_vpk(&set_of(&[("maps/dota.vmap_c", b"BASE")])).unwrap();
    let no_map = create_vpk(&set_of(&[("maps/a.txt", b"A")])).unwrap();
    assert!(matches!(create_terrain(base.clone(), no_map), Err(ArchiveError::NoMapFile)));
    assert!(matches!(create_terrain(vec![1, 2, 3], base.clone()), Err(ArchiveError::InvalidSignature)));
    assert!(matches!(create_terrain(base, vec![]), Err(ArchiveError::InvalidSignature)));
}

#[test]
fn file_set_insert_replaces() {
    let mut fs = FileSet::new();
    fs.insert(b"a.b".to_vec(), b"1".to_vec());
    fs.insert(b"a.b".to_vec(), b"2".to_vec());
    assert_eq!(fs.len(), 1);
    assert_eq!(fs.get(b"a.b").unwrap(), &b"2".to_vec());
    assert!(!fs.contains_key(b"c.d"));
}

#[test]
fn installation_paths() {
    let root = String::from("C:/Steam/steamapps/common/dota 2 beta/game");
    assert_eq!(get_base_path(&root), format!("{}/dota/maps/dota.vpk", root));
    assert_eq!(get_out_path(&root), format!("{}/dota_tempcontent/maps/dota.vpk", root));
    assert_eq!(get_target_path(&root, "dota_reef.vpk"), format!("{}/dota/maps/dota_reef.vpk", root));
    let mut d = Dota::new(root.clone());
    assert!(d.base_path.is_none());
    d.build_paths("dota_winter.vpk");
    assert_eq!(d.target_path.unwrap(), format!("{}/dota/maps/dota_winter.vpk", root));
    assert_eq!(d.base_path.unwrap(), format!("{}/dota/maps/dota.vpk", root));
    assert_eq!(d.out_path.unwrap(), format!("{}/dota_tempcontent/maps/dota.vpk", root));
}

#[test]
fn index_records_carry_every_field() {
    // one root file "a.txt" with a one-byte payload
    let mut a: Vec<u8> = Vec::new();
    for v in [0x55aa1234u32, 2, 29, 1, 0, 0, 0] {
        a.extend_from_slice(&v.to_le_bytes());
    }
    a.extend_from_slice(b"txt\0 \0a\0");
    a.extend_from_slice(&0xdeadbeefu32.to_le_bytes());
    a.extend_from_slice(&0u16.to_le_bytes());
    a.extend_from_slice(&0x7fffu16.to_le_bytes());
    a.extend_from_slice(&0u32.to_le_bytes());
    a.extend_from_slice(&1u32.to_le_bytes());
    a.extend_from_slice(&0xffffu16.to_le_bytes());
    a.extend_from_slice(b"\0\0\0Z");
    let mut v = VPK::new(a);
    assert!(v.read_header().is_ok());
    assert!(v.populate_index().is_ok());
    assert_eq!(v.index.len(), 1);
    let e = &v.index[0];
    assert_eq!(e.path, b"a.txt".to_vec());
    assert_eq!(e.meta.archive_offset, 57);
    assert_eq!(e.meta.file_length, 1);
    assert_eq!(e.meta.preload_length, 0);
    assert_eq!(e.meta.crc32, 0xdeadbeef);
    assert_eq!(e.meta.archive_index, 0x7fff);
    assert_eq!(e.meta.suffix, 0xffff);
    assert!(v.load_file_data().is_ok());
    assert_eq!(v.files.get(b"a.txt").unwrap(), &b"Z".to_vec());
}

#[test]
fn failed_reads_leave_no_files() {
    let files = set_of(&[("a/b.c", b"x")]);
    let mut out = create_vpk(&files).unwrap();
    // the record's terminator: after header, "c\0", "a\0", "b\0" and 16 bytes
    let at = 28 + 6 + 16;
    assert_eq!(&out[at..at + 2], &[0xff, 0xff]);
    out[at] = 0x34;
    out[at + 1] = 0x12;
    let mut v = VPK::new(out);
    assert!(matches!(v.read(), Err(ArchiveError::IndexCorrupt)));
    assert_eq!(v.files.len(), 0);

    // payload out of bounds: the index loads, the payloads do not
    let mut bad = hand_archive(0xffff, b"PAY");
    bad.truncate(bad.len() - 1);
    let mut v = VPK::new(bad);
    assert!(matches!(v.read(), Err(ArchiveError::IndexCorrupt)));
    assert_eq!(v.files.len(), 0);
}

#[test]
fn written_length_is_sections_plus_digests() {
    let files = set_of(&[("a/b.c", b"xyz"), ("d.e", b"12")]);
    let out = create_vpk(&files).unwrap();
    let tl = le32(&out, 8) as usize;
    assert_eq!(out.len(), 28 + tl + 5 + 48);
}

#[test]
fn terrain_merge_with_unstorable_path_fails() {
    let base = set_of(&[("maps/dota.vmap_c", b"B"), ("noext", b"N")]);
    let target = set_of(&[("maps/x.vmap_c", b"T")]);
    assert!(matches!(patch_and_create(base, target), Err(ArchiveError::InvalidPath)));
    let base = set_of(&[("maps/dota.vmap_c", b"B")]);
    let target = set_of(&[("maps/x.vpk_c", b"T")]);
    assert!(matches!(patch_and_create(base, target), Err(ArchiveError::NoMapFile)));
    let base = set_of(&[("maps/dota.vmap_c", b"B"), ("e/f.g", b"G")]);
    let target = set_of(&[("maps/x.vmap_c", b"T")]);
    let back = read_archive(patch_and_create(base, target).unwrap()).unwrap();
    assert_eq!(back.len(), 2);
    assert_eq!(back.get(b"maps/dota.vmap_c").unwrap(), &b"T".to_vec());
}
